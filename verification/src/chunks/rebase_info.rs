//! The LC_DYLD_INFO rebase opcode stream: every pointer dyld slides.
use crate::macho::consts::{
    REBASE_OPCODE_ADD_ADDR_ULEB, REBASE_OPCODE_DONE, REBASE_OPCODE_DO_REBASE_IMM_TIMES,
    REBASE_OPCODE_DO_REBASE_ULEB_TIMES, REBASE_OPCODE_SET_SEGMENT_AND_OFFSET_ULEB,
    REBASE_OPCODE_SET_TYPE_IMM, REBASE_TYPE_POINTER,
};
use crate::context::Context;
use crate::output_chunks::header::{ChunkHeader, OutputSegment, SegmentView};
use crate::output_chunks::places::{self, segment_and_offset};
use crate::util::{self, bytes, order, write_uleb};
use vstd::prelude::*;

verus! {

/// The rebase opcode stream.
#[derive(Debug)]
pub struct RebaseInfoSection {
    pub hdr: ChunkHeader,
    /// The encoded table.
    pub contents: Vec<u8>,
}

impl RebaseInfoSection {
    /// An empty table that is not placed yet.
    pub fn new() -> (r: RebaseInfoSection)
        ensures
            r.hdr@ == crate::output_chunks::header::linkedit_header(),
            r.contents.len() == 0,
    {
        RebaseInfoSection {
            hdr: ChunkHeader::linkedit(),
            contents: Vec::new(),
        }
    }
}

/// How many slots lie adjacent behind the one at `i`, counted from `n`.
pub open spec fn run_from(locs: Seq<u64>, i: int, n: int) -> int
    decreases locs.len() - (i + n),
{
    if 0 <= i && 0 <= n && i + n < locs.len() && locs[i + n] == locs[i] + n * 8 {
        run_from(locs, i, n + 1)
    } else {
        n
    }
}

/// The number of slots in the run that starts at `i`.
pub open spec fn run_len(locs: Seq<u64>, i: int) -> int {
    run_from(locs, i, 1)
}

proof fn lemma_run(locs: Seq<u64>, i: int, n: int)
    requires
        0 <= i,
        1 <= n,
        i + n <= locs.len(),
    ensures
        n <= run_from(locs, i, n),
        i + run_from(locs, i, n) <= locs.len(),
        forall|k: int|
            i + n <= k < i + run_from(locs, i, n) ==> (#[trigger] locs[k]) == locs[i] + (k - i) * 8,
    decreases locs.len() - (i + n),
{
    if i + n < locs.len() && locs[i + n] == locs[i] + n * 8 {
        lemma_run(locs, i, n + 1);
    }
}

fn find_run(locs: &Vec<u64>, i: usize) -> (n: usize)
    requires
        i < locs.len(),
        forall|a: int, b: int| 0 <= a <= b < locs.len() ==> locs[a] <= locs[b],
    ensures
        n == run_len(locs@, i as int),
        1 <= n,
        i + n <= locs.len(),
{
    proof {
        lemma_run(locs@, i as int, 1);
    }
    let mut n: usize = 1;
    while i + n < locs.len() && (locs[i + n] - locs[i]) % 8 == 0 && (locs[i + n] - locs[i]) / 8
        == n as u64
        invariant
            1 <= n,
            i + n <= locs.len(),
            forall|a: int, b: int| 0 <= a <= b < locs.len() ==> locs[a] <= locs[b],
            run_from(locs@, i as int, n as int) == run_len(locs@, i as int),
        decreases locs.len() - n,
    {
        n += 1;
    }
    n
}

/// The opcodes that move to a place: an advance within the segment where
/// that reaches it, or else a new segment and offset.
pub open spec fn move_to(cur: Option<(u8, int)>, seg: u8, off: u64) -> Seq<u8> {
    match cur {
        Some(c) if c.0 == seg && off >= c.1 => if off > c.1 {
            seq![REBASE_OPCODE_ADD_ADDR_ULEB] + util::uleb((off - c.1) as nat)
        } else {
            Seq::empty()
        },
        _ => seq![REBASE_OPCODE_SET_SEGMENT_AND_OFFSET_ULEB | seg] + util::uleb(off as nat),
    }
}

/// The opcodes that rebase `n` adjacent slots.
pub open spec fn rebase_times(n: int) -> Seq<u8> {
    if n <= 15 {
        seq![REBASE_OPCODE_DO_REBASE_IMM_TIMES | (n as u8)]
    } else {
        seq![REBASE_OPCODE_DO_REBASE_ULEB_TIMES] + util::uleb(n as nat)
    }
}

/// The opcodes for the sorted slots from `i` on, where the state machine
/// stands at `cur`. `None` if a slot lies in no segment.
pub open spec fn rebase_ops(
    locs: Seq<u64>,
    segs: Seq<SegmentView>,
    i: int,
    cur: Option<(u8, int)>,
) -> Option<Seq<u8>>
    decreases locs.len() - i,
{
    let n = run_len(locs, i);
    if i < 0 || i >= locs.len() || n < 1 || i + n > locs.len() {
        Some(Seq::empty())
    } else {
        match places::place_of(segs, locs[i], 0) {
            None => None,
            Some((seg, off)) => match rebase_ops(
                locs,
                segs,
                i + n,
                Some((seg as u8, off + n * 8)),
            ) {
                None => None,
                Some(rest) => Some(move_to(cur, seg as u8, off) + rebase_times(n) + rest),
            },
        }
    }
}

/// The rebase opcode stream for a set of slots. `None` if a slot lies in no
/// segment.
pub open spec fn rebase_info(locs: Seq<u64>, segs: Seq<SegmentView>) -> Option<Seq<u8>> {
    if locs.len() == 0 {
        Some(Seq::empty())
    } else {
        match rebase_ops(order::sorted_values(locs), segs, 0, None) {
            Some(ops) => Some(
                bytes::padded8(
                    (seq![REBASE_OPCODE_SET_TYPE_IMM | REBASE_TYPE_POINTER] + ops).push(
                        REBASE_OPCODE_DONE,
                    ),
                ),
            ),
            None => None,
        }
    }
}

fn push_move(buf: &mut Vec<u8>, cur: Option<(u8, u128)>, seg: u8, off: u64)
    ensures
        final(buf)@ == old(buf)@ + move_to(
            match cur {
                Some(c) => Some((c.0, c.1 as int)),
                None => None,
            },
            seg,
            off,
        ),
{
    let ghost start = buf@;
    match cur {
        Some(c) => {
            if c.0 == seg && off as u128 >= c.1 {
                if off as u128 > c.1 {
                    buf.push(REBASE_OPCODE_ADD_ADDR_ULEB);
                    write_uleb(buf, (off as u128 - c.1) as u64);
                    assert(buf@ =~= start + (seq![REBASE_OPCODE_ADD_ADDR_ULEB] + util::uleb(
                        (off - c.1) as nat,
                    )));
                } else {
                    proof {
                        bytes::lemma_empty_right(start);
                    }
                }
                return ;
            }
        },
        None => {},
    }
    buf.push(REBASE_OPCODE_SET_SEGMENT_AND_OFFSET_ULEB | seg);
    write_uleb(buf, off);
    assert(buf@ =~= start + (seq![REBASE_OPCODE_SET_SEGMENT_AND_OFFSET_ULEB | seg] + util::uleb(
        off as nat,
    )));
}

fn push_times(buf: &mut Vec<u8>, n: usize)
    ensures
        final(buf)@ == old(buf)@ + rebase_times(n as int),
{
    let ghost start = buf@;
    if n <= 15 {
        buf.push(REBASE_OPCODE_DO_REBASE_IMM_TIMES | (n as u8));
    } else {
        buf.push(REBASE_OPCODE_DO_REBASE_ULEB_TIMES);
        write_uleb(buf, n as u64);
    }
    assert(buf@ =~= start + rebase_times(n as int));
}

/// Encodes the rebase opcode stream: it tells dyld which pointers in the
/// image it must slide. Rebase locations cluster, and a run of adjacent
/// pointers becomes one opcode.
pub fn encode_rebase_info(locs: &Vec<u64>, segs: &Vec<OutputSegment>) -> (r: Option<Vec<u8>>)
    ensures
        match r {
            Some(b) => rebase_info(
                locs@,
                crate::output_chunks::header::segment_views(segs@),
            ) == Some(b@),
            None => rebase_info(
                locs@,
                crate::output_chunks::header::segment_views(segs@),
            ) is None,
        },
{
    let ghost sv = crate::output_chunks::header::segment_views(segs@);
    let mut buf: Vec<u8> = Vec::new();
    if locs.len() == 0 {
        assert(buf@ =~= Seq::empty());
        return Some(buf);
    }
    let sorted: Vec<u64> = order::sort_values(locs.as_slice());
    proof {
        order::lemma_sorted_values(locs@);
    }
    buf.push(REBASE_OPCODE_SET_TYPE_IMM | REBASE_TYPE_POINTER);
    let ghost head = seq![REBASE_OPCODE_SET_TYPE_IMM | REBASE_TYPE_POINTER];
    assert(buf@ =~= head);
    let mut cur: Option<(u8, u128)> = None;
    let ghost mut at: Option<(u8, int)> = None;
    let mut i: usize = 0;
    let ghost all = rebase_ops(sorted@, sv, 0, None);
    while i < sorted.len()
        invariant
            i <= sorted.len(),
            sv == crate::output_chunks::header::segment_views(segs@),
            forall|a: int, b: int| 0 <= a <= b < sorted.len() ==> sorted[a] <= sorted[b],
            all == rebase_ops(sorted@, sv, 0, None),
            at == (match cur {
                Some(c) => Some((c.0, c.1 as int)),
                None => None,
            }),
            rebase_ops(sorted@, sv, i as int, at) is None ==> all is None,
            rebase_ops(sorted@, sv, i as int, at) matches Some(rest) ==> all is Some && head
                + all->0 == buf@ + rest,
            sorted@ == order::sorted_values(locs@),
            locs.len() > 0,
        decreases sorted.len() - i,
    {
        let n: usize = find_run(&sorted, i);
        match segment_and_offset(segs, sorted[i]) {
            None => {
                return None;
            },
            Some((seg, off)) => {
                let ghost before = buf@;
                push_move(&mut buf, cur, seg as u8, off);
                push_times(&mut buf, n);
                proof {
                    let next = Some((seg as u8, off + n * 8));
                    if let Some(rest) = rebase_ops(sorted@, sv, i + n, next) {
                        let a = move_to(at, seg as u8, off);
                        let b = rebase_times(n as int);
                        assert(before + (a + b + rest) =~= before + a + b + rest);
                    }
                    at = next;
                }
                cur = Some((seg as u8, off as u128 + n as u128 * 8));
                i += n;
            },
        }
    }
    proof {
        bytes::lemma_empty_right(buf@);
    }
    buf.push(REBASE_OPCODE_DONE);
    bytes::pad8(&mut buf);
    Some(buf)
}

/// What dyld does with the opcodes from `pos` on, when it stands at offset
/// `off` of segment `seg` and has rebased the slots `done`: the slots that
/// it has rebased when it is done.
#[verifier::opaque]
pub open spec fn interpret(
    code: Seq<u8>,
    bases: Seq<u64>,
    pos: int,
    seg: int,
    off: int,
    done: Seq<int>,
) -> Option<Seq<int>>
    decreases code.len() - pos,
{
    if pos < 0 || pos >= code.len() {
        None
    } else {
        let op = code[pos] as int / 16;
        let imm = code[pos] as int % 16;
        if op == 0 {
            Some(done)
        } else if op == 1 {
            interpret(code, bases, pos + 1, seg, off, done)
        } else if op == 5 {
            interpret(
                code,
                bases,
                pos + 1,
                seg,
                off + imm * 8,
                done + slots_from(bases[seg] + off, imm),
            )
        } else {
            match util::uleb_decode(code, pos + 1, 10) {
                None => None,
                Some((v, next)) => if next <= pos || next > code.len() {
                    None
                } else if op == 2 {
                    interpret(code, bases, next, imm, v as int, done)
                } else if op == 3 {
                    interpret(code, bases, next, seg, off + v, done)
                } else if op == 6 {
                    interpret(
                        code,
                        bases,
                        next,
                        seg,
                        off + v * 8,
                        done + slots_from(bases[seg] + off, v as int),
                    )
                } else {
                    None
                },
            }
        }
    }
}

/// `n` adjacent slots.
pub open spec fn slots_from(addr: int, n: int) -> Seq<int> {
    Seq::new(n as nat, |k: int| addr + k * 8)
}

/// The addresses where segments start.
pub open spec fn bases_of(segs: Seq<SegmentView>) -> Seq<u64> {
    segs.map_values(|s: SegmentView| s.cmd.vmaddr)
}

/// Addresses as numbers.
pub open spec fn as_ints(locs: Seq<u64>) -> Seq<int> {
    locs.map_values(|l: u64| l as int)
}

proof fn lemma_opcodes(v: u8)
    requires
        v < 16,
    ensures
        (REBASE_OPCODE_SET_SEGMENT_AND_OFFSET_ULEB | v) == 0x20 + v,
        (REBASE_OPCODE_DO_REBASE_IMM_TIMES | v) == 0x50 + v,
        (REBASE_OPCODE_SET_TYPE_IMM | REBASE_TYPE_POINTER) == 0x11,
{
    assert(0x20u8 | v == 0x20 + v && 0x50u8 | v == 0x50 + v && 0x10u8 | 1u8 == 0x11) by (bit_vector)
        requires
            v < 16,
    ;
}

/// One opcode with a number behind it.
proof fn lemma_step(
    code: Seq<u8>,
    bases: Seq<u64>,
    pos: int,
    seg: int,
    off: int,
    done: Seq<int>,
    v: u64,
    next: int,
)
    requires
        0 <= pos < next <= code.len(),
        util::uleb_decode(code, pos + 1, 10) == Some((v as nat, next)),
    ensures
        0x20 <= code[pos] < 0x30 ==> interpret(code, bases, pos, seg, off, done) == interpret(
            code,
            bases,
            next,
            code[pos] - 0x20,
            v as int,
            done,
        ),
        code[pos] == 0x30 ==> interpret(code, bases, pos, seg, off, done) == interpret(
            code,
            bases,
            next,
            seg,
            off + v,
            done,
        ),
        code[pos] == 0x60 ==> interpret(code, bases, pos, seg, off, done) == interpret(
            code,
            bases,
            next,
            seg,
            off + v * 8,
            done + slots_from(bases[seg] + off, v as int),
        ),
{
    reveal_with_fuel(interpret, 2);
}

proof fn lemma_move(
    before: Seq<u8>,
    tail: Seq<u8>,
    bases: Seq<u64>,
    cur: Option<(u8, int)>,
    s: int,
    o: u64,
    seg: int,
    off: int,
    done: Seq<int>,
)
    requires
        0 <= s < 16,
        cur matches Some(c) ==> c.0 == seg && c.1 == off && c.1 >= 0,
        tail.len() > 0,
    ensures
        ({
            let a = move_to(cur, s as u8, o);
            interpret(before + a + tail, bases, before.len() as int, seg, off, done) == interpret(
                before + a + tail,
                bases,
                (before + a).len() as int,
                s,
                o as int,
                done,
            )
        }),
{
    let a = move_to(cur, s as u8, o);
    let code = before + a + tail;
    let pos = before.len() as int;
    lemma_opcodes(s as u8);
    if cur is Some && (cur->0).0 == s as u8 && o >= (cur->0).1 {
        let c = cur->0;
        if o > c.1 {
            let v = (o - c.1) as u64;
            assert(code[pos] == a[0]);
            util::lemma_uleb_u64(v, before.push(a[0]), tail);
            assert(before.push(a[0]) + util::uleb(v as nat) + tail =~= code);
            lemma_step(code, bases, pos, seg, off, done, v, (before + a).len() as int);
        } else {
            assert(a =~= Seq::empty());
        }
    } else {
        assert(code[pos] == a[0]);
        util::lemma_uleb_u64(o, before.push(a[0]), tail);
        assert(before.push(a[0]) + util::uleb(o as nat) + tail =~= code);
        lemma_step(code, bases, pos, seg, off, done, o, (before + a).len() as int);
    }
}

proof fn lemma_times(
    before: Seq<u8>,
    tail: Seq<u8>,
    bases: Seq<u64>,
    seg: int,
    off: int,
    n: int,
    done: Seq<int>,
)
    requires
        1 <= n <= u64::MAX,
    ensures
        ({
            let b = rebase_times(n);
            interpret(before + b + tail, bases, before.len() as int, seg, off, done) == interpret(
                before + b + tail,
                bases,
                (before + b).len() as int,
                seg,
                off + n * 8,
                done + slots_from(bases[seg] + off, n),
            )
        }),
{
    let b = rebase_times(n);
    let code = before + b + tail;
    assert(code[before.len() as int] == b[0]);
    if n <= 15 {
        lemma_opcodes(n as u8);
        reveal_with_fuel(interpret, 2);
    } else {
        let pos = before.len() as int;
        util::lemma_uleb_u64(n as u64, before.push(b[0]), tail);
        assert(before.push(b[0]) + util::uleb(n as nat) + tail =~= code);
        lemma_step(code, bases, pos, seg, off, done, n as u64, (before + b).len() as int);
    }
}

proof fn lemma_slots(locs: Seq<u64>, i: int, n: int, addr: int)
    requires
        0 <= i < locs.len(),
        n == run_len(locs, i),
        addr == locs[i],
    ensures
        slots_from(addr, n) + as_ints(locs).skip(i + n) == as_ints(locs).skip(i),
{
    lemma_run(locs, i, 1);
    let whole = slots_from(addr, n) + as_ints(locs).skip(i + n);
    assert forall|k: int| 0 <= k < whole.len() implies whole[k] == as_ints(locs).skip(i)[k] by {
        if 1 <= k < n {
            assert(locs[i + k] == locs[i] + k * 8);
        }
    }
    assert(whole =~= as_ints(locs).skip(i));
}

proof fn lemma_interpret_ops(
    locs: Seq<u64>,
    segs: Seq<SegmentView>,
    i: int,
    cur: Option<(u8, int)>,
    before: Seq<u8>,
    after: Seq<u8>,
    seg: int,
    off: int,
    done: Seq<int>,
)
    requires
        0 <= i <= locs.len(),
        locs.len() <= u64::MAX,
        segs.len() <= 16,
        forall|a: int, b: int| 0 <= a <= b < locs.len() ==> locs[a] <= locs[b],
        rebase_ops(locs, segs, i, cur) is Some,
        cur matches Some(c) ==> c.0 == seg && c.1 == off && seg < segs.len() && c.1 >= 0,
        after.len() > 0,
        after[0] == 0,
    ensures
        interpret(
            before + rebase_ops(locs, segs, i, cur)->0 + after,
            bases_of(segs),
            before.len() as int,
            seg,
            off,
            done,
        ) == Some(done + as_ints(locs).skip(i)),
    decreases locs.len() - i,
{
    let ops = rebase_ops(locs, segs, i, cur)->0;
    let code = before + ops + after;
    let pos = before.len() as int;
    let bases = bases_of(segs);
    if i >= locs.len() {
        reveal_with_fuel(interpret, 2);
        assert(code[pos] == after[0]);
        assert(as_ints(locs).skip(i) =~= Seq::empty());
        assert(done + Seq::<int>::empty() =~= done);
    } else {
        let n = run_len(locs, i);
        lemma_run(locs, i, 1);
        let (s, o) = places::place_of(segs, locs[i], 0)->0;
        places::lemma_place_of(segs, locs[i], 0);
        let next = Some((s as u8, o + n * 8));
        let rest = rebase_ops(locs, segs, i + n, next)->0;
        let a = move_to(cur, s as u8, o);
        let b = rebase_times(n);
        lemma_opcodes(s as u8);
        let mid = before + a;
        let end = mid + b;
        let added = done + slots_from(bases[s as int] + o, n);
        lemma_move(before, b + rest + after, bases, cur, s as int, o, seg, off, done);
        lemma_times(mid, rest + after, bases, s as int, o as int, n, done);
        assert(code =~= before + a + (b + rest + after));
        assert(code =~= mid + b + (rest + after));
        lemma_interpret_ops(
            locs,
            segs,
            i + n,
            next,
            end,
            after,
            s as int,
            o + n * 8,
            added,
        );
        assert(end + rest + after =~= code);
        lemma_slots(locs, i, n, bases[s as int] + o);
        assert(added + as_ints(locs).skip(i + n) =~= done + as_ints(locs).skip(i));
    }
}

/// dyld slides exactly the listed slots: interpreting the opcode stream
/// gives them back in ascending order.
pub proof fn lemma_rebase_info(locs: Seq<u64>, segs: Seq<SegmentView>)
    requires
        0 < locs.len() <= usize::MAX,
        segs.len() <= 16,
        rebase_info(locs, segs) is Some,
    ensures
        interpret(rebase_info(locs, segs)->0, bases_of(segs), 0, 0, 0, Seq::empty()) == Some(
            as_ints(order::sorted_values(locs)),
        ),
{
    let sorted = order::sorted_values(locs);
    order::lemma_sorted_values(locs);
    let ops = rebase_ops(sorted, segs, 0, None)->0;
    let head = seq![REBASE_OPCODE_SET_TYPE_IMM | REBASE_TYPE_POINTER];
    let body = (head + ops).push(REBASE_OPCODE_DONE);
    let after = seq![REBASE_OPCODE_DONE] + bytes::zeros(bytes::pad8_len(body.len() as int));
    let code = rebase_info(locs, segs)->0;
    assert(code =~= head + ops + after);
    lemma_opcodes(0);
    assert(code[0] == 0x11);
    reveal_with_fuel(interpret, 2);
    lemma_interpret_ops(sorted, segs, 0, None, head, after, 0, 0, Seq::empty());
    assert(Seq::<int>::empty() + as_ints(sorted).skip(0) =~= as_ints(sorted));
}

/// A field of a synthesized record.
#[derive(Debug)]
pub enum DataField {
    Bytes(Vec<u8>),
    /// A pointer to an address, 0 for none.
    Ptr(u64),
}

/// A synthesized record, which is the contents of a subsection.
#[derive(Debug)]
pub struct DataBlob {
    pub isec: usize,
    pub fields: Vec<DataField>,
}

/// How many bytes a field takes.
pub open spec fn field_size(f: DataField) -> int {
    match f {
        DataField::Bytes(b) => b.len() as int,
        DataField::Ptr(_) => 8,
    }
}

/// Where the `k`th field of a record at `at` starts.
pub open spec fn field_addr(fields: Seq<DataField>, at: int, k: int) -> int
    decreases k,
{
    if k <= 0 {
        at
    } else {
        field_addr(fields, at, k - 1) + field_size(fields[k - 1])
    }
}

/// The (address, target) of each pointer that is not null among the first
/// `k` fields of a record at `at`.
pub open spec fn field_pointers(fields: Seq<DataField>, at: int, k: int) -> Seq<(u64, u64)>
    decreases k,
{
    if k <= 0 {
        Seq::empty()
    } else {
        match fields[k - 1] {
            DataField::Ptr(t) => if t != 0 {
                field_pointers(fields, at, k - 1).push(
                    (bytes::word64(field_addr(fields, at, k - 1)), t),
                )
            } else {
                field_pointers(fields, at, k - 1)
            },
            DataField::Bytes(_) => field_pointers(fields, at, k - 1),
        }
    }
}

/// The pointers of the first `n` records.
pub open spec fn blob_pointers(ctx: Context, blobs: Seq<DataBlob>, n: int) -> Seq<(u64, u64)>
    decreases n,
{
    if n <= 0 {
        Seq::empty()
    } else {
        blob_pointers(ctx, blobs, n - 1) + field_pointers(
            blobs[n - 1].fields@,
            ctx.addr_of_isec(blobs[n - 1].isec as int) as int,
            blobs[n - 1].fields.len() as int,
        )
    }
}

fn push_field_pointers(fields: &Vec<DataField>, at: u64, out: &mut Vec<(u64, u64)>)
    ensures
        final(out)@ == old(out)@ + field_pointers(fields@, at as int, fields.len() as int),
{
    let ghost start = out@;
    assert(start + Seq::<(u64, u64)>::empty() =~= start);
    proof {
        reveal(bytes::word64);
    }
    let mut pos: u64 = at;
    let mut k: usize = 0;
    while k < fields.len()
        invariant
            k <= fields.len(),
            pos == bytes::word64(field_addr(fields@, at as int, k as int)),
            out@ == start + field_pointers(fields@, at as int, k as int),
        decreases fields.len() - k,
    {
        let ghost head = field_pointers(fields@, at as int, k as int);
        let ghost a = field_addr(fields@, at as int, k as int);
        match &fields[k] {
            DataField::Bytes(b) => {
                proof {
                    bytes::lemma_word64_sum(a, b.len() as int);
                }
                pos = bytes::sum64(pos, b.len() as u64);
            },
            DataField::Ptr(t) => {
                if *t != 0 {
                    out.push((pos, *t));
                    assert((start + head).push((pos, *t)) =~= start + head.push((pos, *t)));
                }
                proof {
                    bytes::lemma_word64_sum(a, 8);
                }
                pos = bytes::sum64(pos, 8);
            },
        }
        k += 1;
    }
}

/// Lists the (address, target) of every pointer of synthesized records that
/// is not null. Each is a rebase.
pub fn data_blob_pointers(ctx: &Context, blobs: &Vec<DataBlob>) -> (r: Vec<(u64, u64)>)
    requires
        ctx.wf(),
        forall|i: int| 0 <= i < blobs.len() ==> (#[trigger] blobs[i]).isec < ctx.inputs.isecs.len(),
    ensures
        r@ == blob_pointers(*ctx, blobs@, blobs.len() as int),
{
    let mut r: Vec<(u64, u64)> = Vec::new();
    let mut n: usize = 0;
    while n < blobs.len()
        invariant
            n <= blobs.len(),
            ctx.wf(),
            forall|i: int|
                0 <= i < blobs.len() ==> (#[trigger] blobs[i]).isec < ctx.inputs.isecs.len(),
            r@ == blob_pointers(*ctx, blobs@, n as int),
        decreases blobs.len() - n,
    {
        let at: u64 = ctx.isec_addr(blobs[n].isec);
        push_field_pointers(&blobs[n].fields, at, &mut r);
        n += 1;
    }
    r
}

} // verus!
