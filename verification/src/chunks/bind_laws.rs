//! What dyld makes of the bind opcode stream.
use super::bind_info::BindView;
use crate::macho::consts::{
    BIND_OPCODE_DONE, BIND_OPCODE_DO_BIND, BIND_OPCODE_SET_ADDEND_SLEB,
    BIND_OPCODE_SET_DYLIB_ORDINAL_IMM, BIND_OPCODE_SET_DYLIB_ORDINAL_ULEB,
    BIND_OPCODE_SET_DYLIB_SPECIAL_IMM, BIND_OPCODE_SET_SEGMENT_AND_OFFSET_ULEB,
    BIND_OPCODE_SET_SYMBOL_TRAILING_FLAGS_IMM, BIND_OPCODE_SET_TYPE_IMM,
    BIND_SYMBOL_FLAGS_WEAK_IMPORT, BIND_TYPE_POINTER,
};
use crate::output_chunks::header::SegmentView;
use crate::util::{self, bytes, order};
use vstd::prelude::*;

verus! {

/// The value of the SLEB128 encoding at `pos` and the position behind it.
pub open spec fn sleb_decode(data: Seq<u8>, pos: int) -> Option<(int, int)>
    decreases data.len() - pos,
{
    if pos < 0 || pos >= data.len() {
        None
    } else if data[pos] < 64 {
        Some((data[pos] as int, pos + 1))
    } else if data[pos] < 128 {
        Some((data[pos] - 128, pos + 1))
    } else {
        match sleb_decode(data, pos + 1) {
            Some((v, next)) => Some((data[pos] - 128 + 128 * v, next)),
            None => None,
        }
    }
}

/// Decoding an encoded value gives the value back, whatever follows.
pub proof fn lemma_sleb_round_trip(v: int, before: Seq<u8>, after: Seq<u8>)
    ensures
        sleb_decode(before + util::sleb(v) + after, before.len() as int) == Some(
            (v, (before.len() + util::sleb(v).len()) as int),
        ),
    decreases (if v < 0 { -v } else { v }),
{
    let code = before + util::sleb(v) + after;
    let pos = before.len() as int;
    if -64 <= v < 64 {
        assert(code[pos] == (v % 128) as u8);
    } else {
        let b = (128 + v % 128) as u8;
        assert(code[pos] == b);
        lemma_sleb_round_trip(v / 128, before.push(b), after);
        assert(before.push(b) + util::sleb(v / 128) + after =~= code);
    }
}

/// Where the name at `i` ends: at its NUL, or not before the end.
pub open spec fn name_end(data: Seq<u8>, i: int) -> int
    decreases data.len() - i,
{
    if i < 0 || i >= data.len() || data[i] == 0 {
        i
    } else {
        name_end(data, i + 1)
    }
}

proof fn lemma_name_end(before: Seq<u8>, name: Seq<u8>, after: Seq<u8>, k: int)
    requires
        0 <= k <= name.len(),
        forall|j: int| 0 <= j < name.len() ==> #[trigger] name[j] != 0,
        after.len() > 0,
        after[0] == 0,
    ensures
        name_end(before + name + after, before.len() + k) == before.len() + name.len(),
    decreases name.len() - k,
{
    let code = before + name + after;
    if k < name.len() {
        assert(code[before.len() + k] == name[k]);
        lemma_name_end(before, name, after, k + 1);
    } else {
        assert(code[before.len() + k] == after[0]);
    }
}

/// A slot that dyld fills: its address, the library's ordinal, whether the
/// import may be missing, its name, and the addend.
#[verifier::ext_equal]
pub struct BoundView {
    pub addr: int,
    pub ordinal: int,
    pub weak: bool,
    pub name: Seq<u8>,
    pub addend: int,
}

/// What the opcodes have set so far.
#[verifier::ext_equal]
pub struct BindState {
    pub ordinal: int,
    pub weak: bool,
    pub name: Seq<u8>,
    pub addend: int,
    pub seg: int,
    pub off: int,
}

/// The state that dyld starts in.
pub open spec fn first_state() -> BindState {
    BindState { ordinal: 0, weak: false, name: Seq::empty(), addend: 0, seg: 0, off: 0 }
}

/// The slots that dyld fills from the opcodes at `pos` on, behind those in
/// `done`. `None` if the stream has no end or an opcode is unknown.
pub open spec fn run_binds(
    code: Seq<u8>,
    bases: Seq<u64>,
    pos: int,
    st: BindState,
    done: Seq<BoundView>,
) -> Option<Seq<BoundView>>
    decreases code.len() - pos,
{
    if pos < 0 || pos >= code.len() {
        None
    } else {
        let op = code[pos] / 16;
        let imm = code[pos] as int % 16;
        if op == 0 {
            Some(done)
        } else if op == 1 {
            run_binds(code, bases, pos + 1, BindState { ordinal: imm, ..st }, done)
        } else if op == 3 {
            let ordinal = if imm == 0 {
                0
            } else {
                imm - 16
            };
            run_binds(code, bases, pos + 1, BindState { ordinal, ..st }, done)
        } else if op == 4 {
            let end = name_end(code, pos + 1);
            if end <= pos || end >= code.len() {
                None
            } else {
                run_binds(
                    code,
                    bases,
                    end + 1,
                    BindState {
                        weak: imm % 2 == 1,
                        name: code.subrange(pos + 1, end),
                        ..st
                    },
                    done,
                )
            }
        } else if op == 5 {
            run_binds(code, bases, pos + 1, st, done)
        } else if op == 6 {
            match sleb_decode(code, pos + 1) {
                None => None,
                Some((v, next)) => if next <= pos || next > code.len() {
                    None
                } else {
                    run_binds(code, bases, next, BindState { addend: v, ..st }, done)
                },
            }
        } else if op == 9 {
            run_binds(
                code,
                bases,
                pos + 1,
                BindState { off: st.off + 8, ..st },
                done.push(
                    BoundView {
                        addr: bases[st.seg] + st.off,
                        ordinal: st.ordinal,
                        weak: st.weak,
                        name: st.name,
                        addend: st.addend,
                    },
                ),
            )
        } else if op == 2 || op == 7 {
            match util::uleb_decode(code, pos + 1, 10) {
                None => None,
                Some((v, next)) => if next <= pos || next > code.len() {
                    None
                } else if op == 2 {
                    run_binds(code, bases, next, BindState { ordinal: v as int, ..st }, done)
                } else {
                    run_binds(
                        code,
                        bases,
                        next,
                        BindState { seg: imm, off: v as int, ..st },
                        done,
                    )
                },
            }
        } else {
            None
        }
    }
}

proof fn lemma_bind_opcodes(v: u8)
    requires
        v < 16,
    ensures
        (BIND_OPCODE_SET_DYLIB_ORDINAL_IMM | v) == 0x10 + v,
        (BIND_OPCODE_SET_DYLIB_SPECIAL_IMM | v) == 0x30 + v,
        (BIND_OPCODE_SET_SYMBOL_TRAILING_FLAGS_IMM | v) == 0x40 + v,
        (BIND_OPCODE_SET_TYPE_IMM | BIND_TYPE_POINTER) == 0x51,
        (BIND_OPCODE_SET_SEGMENT_AND_OFFSET_ULEB | v) == 0x70 + v,
{
    assert(0x10u8 | v == 0x10 + v && 0x30u8 | v == 0x30 + v && 0x40u8 | v == 0x40 + v && 0x70u8 | v
        == 0x70 + v && 0x50u8 | 1u8 == 0x51) by (bit_vector)
        requires
            v < 16,
    ;
}

proof fn lemma_ordinal_step(
    before: Seq<u8>,
    after: Seq<u8>,
    bases: Seq<u64>,
    ordinal: i32,
    st: BindState,
    done: Seq<BoundView>,
)
    requires
        -16 < ordinal,
    ensures
        ({
            let a = super::bind_info::ordinal_ops(ordinal);
            let code = before + a + after;
            run_binds(code, bases, before.len() as int, st, done) == run_binds(
                code,
                bases,
                (before + a).len() as int,
                BindState { ordinal: ordinal as int, ..st },
                done,
            )
        }),
{
    let a = super::bind_info::ordinal_ops(ordinal);
    let code = before + a + after;
    let pos = before.len() as int;
    assert(code[pos] == a[0]);
    if ordinal <= 0 {
        lemma_bind_opcodes((ordinal as int % 16) as u8);
    } else if ordinal < 16 {
        lemma_bind_opcodes(ordinal as u8);
    } else {
        util::lemma_uleb_u64(ordinal as u64, before.push(a[0]), after);
        assert(before.push(a[0]) + util::uleb(ordinal as nat) + after =~= code);
    }
}

proof fn lemma_name_step(
    before: Seq<u8>,
    after: Seq<u8>,
    bases: Seq<u64>,
    weak: bool,
    name: Seq<u8>,
    st: BindState,
    done: Seq<BoundView>,
)
    requires
        forall|j: int| 0 <= j < name.len() ==> #[trigger] name[j] != 0,
    ensures
        ({
            let a = super::bind_info::name_ops(weak, name);
            let code = before + a + after;
            run_binds(code, bases, before.len() as int, st, done) == run_binds(
                code,
                bases,
                (before + a).len() as int,
                BindState { weak, name, ..st },
                done,
            )
        }),
{
    let a = super::bind_info::name_ops(weak, name);
    let code = before + a + after;
    let pos = before.len() as int;
    let flags: u8 = if weak {
        BIND_SYMBOL_FLAGS_WEAK_IMPORT
    } else {
        0
    };
    lemma_bind_opcodes(flags);
    assert(code[pos] == 0x40 + flags);
    let head = before.push(code[pos]);
    let tail = seq![0u8, BIND_OPCODE_SET_TYPE_IMM | BIND_TYPE_POINTER] + after;
    assert(head + name + tail =~= code);
    lemma_name_end(head, name, tail, 0);
    let end = pos + 1 + name.len();
    assert(name_end(code, pos + 1) == end);
    assert(code.subrange(pos + 1, end) =~= name);
    assert(code[end + 1] == tail[1]);
    let mid = BindState { weak, name, ..st };
    assert(run_binds(code, bases, pos, st, done) == run_binds(code, bases, end + 1, mid, done));
    assert(run_binds(code, bases, end + 1, mid, done) == run_binds(
        code,
        bases,
        end + 2,
        mid,
        done,
    ));
    assert((before + a).len() == end + 2);
}

proof fn lemma_addend_step(
    before: Seq<u8>,
    after: Seq<u8>,
    bases: Seq<u64>,
    addend: i64,
    st: BindState,
    last: i64,
    done: Seq<BoundView>,
)
    requires
        st.addend == last,
    ensures
        ({
            let a = super::bind_info::addend_ops(last, addend);
            let code = before + a + after;
            run_binds(code, bases, before.len() as int, st, done) == run_binds(
                code,
                bases,
                (before + a).len() as int,
                BindState { addend: addend as int, ..st },
                done,
            )
        }),
{
    let a = super::bind_info::addend_ops(last, addend);
    let code = before + a + after;
    if addend != last {
        assert(code[before.len() as int] == a[0]);
        lemma_sleb_round_trip(addend as int, before.push(a[0]), after);
        assert(before.push(a[0]) + util::sleb(addend as int) + after =~= code);
    } else {
        assert(a =~= Seq::empty());
        assert(BindState { addend: addend as int, ..st } == st);
    }
}

proof fn lemma_slot_step(
    before: Seq<u8>,
    after: Seq<u8>,
    bases: Seq<u64>,
    seg: u8,
    off: u64,
    st: BindState,
    done: Seq<BoundView>,
)
    requires
        seg < 16,
    ensures
        ({
            let a = super::bind_info::slot_ops(seg, off);
            let code = before + a + after;
            run_binds(code, bases, before.len() as int, st, done) == run_binds(
                code,
                bases,
                (before + a).len() as int,
                BindState { seg: seg as int, off: off + 8, ..st },
                done.push(
                    BoundView {
                        addr: bases[seg as int] + off,
                        ordinal: st.ordinal,
                        weak: st.weak,
                        name: st.name,
                        addend: st.addend,
                    },
                ),
            )
        }),
{
    let a = super::bind_info::slot_ops(seg, off);
    let code = before + a + after;
    let pos = before.len() as int;
    lemma_bind_opcodes(seg);
    assert(code[pos] == a[0]);
    let u = util::uleb(off as nat);
    util::lemma_uleb_u64(off, before.push(a[0]), seq![BIND_OPCODE_DO_BIND] + after);
    assert(before.push(a[0]) + u + (seq![BIND_OPCODE_DO_BIND] + after) =~= code);
    let next = pos + 1 + u.len();
    assert(code[next] == BIND_OPCODE_DO_BIND) by {
        assert(a[1 + u.len() as int] == BIND_OPCODE_DO_BIND);
    }
    let mid = BindState { seg: seg as int, off: off as int, ..st };
    assert(run_binds(code, bases, pos, st, done) == run_binds(code, bases, next, mid, done));
    assert((before + a).len() == next + 1);
}

/// What a bind asks dyld for.
pub open spec fn bound(b: BindView) -> BoundView {
    BoundView {
        addr: b.addr as int,
        ordinal: b.ordinal as int,
        weak: b.weak,
        name: b.name,
        addend: b.addend as int,
    }
}

/// True when dyld can read what a bind says: names end at their NUL, and
/// special ordinals have four bits.
pub open spec fn is_readable(b: BindView) -> bool {
    &&& -16 < b.ordinal
    &&& forall|j: int| 0 <= j < b.name.len() ==> #[trigger] b.name[j] != 0
}

/// The binds from `i` on, in the given order.
pub open spec fn bound_from(binds: Seq<BindView>, at: Seq<usize>, i: int) -> Seq<BoundView> {
    Seq::new((at.len() - i) as nat, |k: int| bound(binds[at[i + k] as int]))
}

proof fn lemma_one_bind(
    before: Seq<u8>,
    after: Seq<u8>,
    bases: Seq<u64>,
    b: BindView,
    last: i64,
    seg: u8,
    off: u64,
    st: BindState,
    done: Seq<BoundView>,
)
    requires
        is_readable(b),
        st.addend == last,
        seg < 16,
        bases[seg as int] + off == b.addr,
    ensures
        ({
            let a = super::bind_info::one_bind(b, last, seg, off);
            let code = before + a + after;
            exists|next: BindState|
                next.addend == b.addend && #[trigger] run_binds(
                    code,
                    bases,
                    (before + a).len() as int,
                    next,
                    done.push(bound(b)),
                ) == run_binds(code, bases, before.len() as int, st, done)
        }),
{
    let o = super::bind_info::ordinal_ops(b.ordinal);
    let n = super::bind_info::name_ops(b.weak, b.name);
    let d = super::bind_info::addend_ops(last, b.addend);
    let s = super::bind_info::slot_ops(seg, off);
    let a = super::bind_info::one_bind(b, last, seg, off);
    let code = before + a + after;
    let st1 = BindState { ordinal: b.ordinal as int, ..st };
    let st2 = BindState { weak: b.weak, name: b.name, ..st1 };
    let st3 = BindState { addend: b.addend as int, ..st2 };
    let st4 = BindState { seg: seg as int, off: off + 8, ..st3 };
    lemma_ordinal_step(before, n + d + s + after, bases, b.ordinal, st, done);
    assert(before + o + (n + d + s + after) =~= code);
    lemma_name_step(before + o, d + s + after, bases, b.weak, b.name, st1, done);
    assert(before + o + n + (d + s + after) =~= code);
    lemma_addend_step(before + o + n, s + after, bases, b.addend, st2, last, done);
    assert(before + o + n + d + (s + after) =~= code);
    lemma_slot_step(before + o + n + d, after, bases, seg, off, st3, done);
    assert(before + o + n + d + s + after =~= code);
    assert((before + o + n + d + s).len() == (before + a).len());
    assert(run_binds(code, bases, (before + a).len() as int, st4, done.push(bound(b)))
        == run_binds(code, bases, before.len() as int, st, done));
}

proof fn lemma_run_ops(
    binds: Seq<BindView>,
    at: Seq<usize>,
    segs: Seq<SegmentView>,
    i: int,
    last: i64,
    before: Seq<u8>,
    after: Seq<u8>,
    st: BindState,
    done: Seq<BoundView>,
)
    requires
        0 <= i <= at.len(),
        segs.len() <= 16,
        forall|k: int| 0 <= k < at.len() ==> (#[trigger] at[k]) < binds.len(),
        forall|k: int| 0 <= k < binds.len() ==> is_readable(#[trigger] binds[k]),
        super::bind_info::bind_ops(binds, at, segs, i, last) is Some,
        st.addend == last,
        after.len() > 0,
        after[0] == 0,
    ensures
        run_binds(
            before + super::bind_info::bind_ops(binds, at, segs, i, last)->0 + after,
            super::rebase_info::bases_of(segs),
            before.len() as int,
            st,
            done,
        ) == Some(done + bound_from(binds, at, i)),
    decreases at.len() - i,
{
    let ops = super::bind_info::bind_ops(binds, at, segs, i, last)->0;
    let code = before + ops + after;
    let bases = super::rebase_info::bases_of(segs);
    if i >= at.len() {
        assert(code[before.len() as int] == after[0]);
        assert(done + bound_from(binds, at, i) =~= done);
    } else {
        let b = binds[at[i] as int];
        assert(at[i] < binds.len());
        let (seg, off) = crate::output_chunks::places::place_of(segs, b.addr, 0)->0;
        crate::output_chunks::places::lemma_place_of(segs, b.addr, 0);
        let rest = super::bind_info::bind_ops(binds, at, segs, i + 1, b.addend)->0;
        let a = super::bind_info::one_bind(b, last, seg as u8, off);
        assert(ops == a + rest);
        assert(before + a + (rest + after) =~= code);
        lemma_one_bind(before, rest + after, bases, b, last, seg as u8, off, st, done);
        let next = choose|next: BindState|
            next.addend == b.addend && #[trigger] run_binds(
                code,
                bases,
                (before + a).len() as int,
                next,
                done.push(bound(b)),
            ) == run_binds(code, bases, before.len() as int, st, done);
        lemma_run_ops(
            binds,
            at,
            segs,
            i + 1,
            b.addend,
            before + a,
            after,
            next,
            done.push(bound(b)),
        );
        assert(before + a + rest + after =~= code);
        assert(done.push(bound(b)) + bound_from(binds, at, i + 1) =~= done + bound_from(
            binds,
            at,
            i,
        ));
    }
}

/// dyld fills exactly the listed slots, each with its import: interpreting
/// the opcode stream gives the binds back in the order of their slots.
pub proof fn lemma_bind_info(binds: Seq<BindView>, segs: Seq<SegmentView>)
    requires
        0 < binds.len() <= usize::MAX,
        segs.len() <= 16,
        forall|k: int| 0 <= k < binds.len() ==> is_readable(#[trigger] binds[k]),
        super::bind_info::bind_info(binds, segs) is Some,
    ensures
        run_binds(
            super::bind_info::bind_info(binds, segs)->0,
            super::rebase_info::bases_of(segs),
            0,
            first_state(),
            Seq::empty(),
        ) == Some(
            bound_from(
                binds,
                order::stable_order_of(super::bind_info::slot_keys(binds)),
                0,
            ),
        ),
{
    let keys = super::bind_info::slot_keys(binds);
    let at = order::stable_order_of(keys);
    order::lemma_stable_order_exists(keys);
    let ops = super::bind_info::bind_ops(binds, at, segs, 0, 0)->0;
    let body = ops.push(BIND_OPCODE_DONE);
    let after = seq![BIND_OPCODE_DONE] + bytes::zeros(bytes::pad8_len(body.len() as int));
    let code = super::bind_info::bind_info(binds, segs)->0;
    assert(code =~= Seq::<u8>::empty() + ops + after);
    assert forall|k: int| 0 <= k < at.len() implies (#[trigger] at[k]) < binds.len() by {}
    lemma_run_ops(
        binds,
        at,
        segs,
        0,
        0,
        Seq::empty(),
        after,
        first_state(),
        Seq::empty(),
    );
    assert(Seq::<BoundView>::empty() + bound_from(binds, at, 0) =~= bound_from(binds, at, 0));
}

} // verus!
