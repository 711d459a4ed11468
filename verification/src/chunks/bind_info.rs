//! The LC_DYLD_INFO bind opcode stream: every slot dyld fills with an import.
use crate::macho::consts::{
    BIND_OPCODE_DONE, BIND_OPCODE_DO_BIND, BIND_OPCODE_SET_ADDEND_SLEB,
    BIND_OPCODE_SET_DYLIB_ORDINAL_IMM, BIND_OPCODE_SET_DYLIB_ORDINAL_ULEB,
    BIND_OPCODE_SET_DYLIB_SPECIAL_IMM, BIND_OPCODE_SET_SEGMENT_AND_OFFSET_ULEB,
    BIND_OPCODE_SET_SYMBOL_TRAILING_FLAGS_IMM, BIND_OPCODE_SET_TYPE_IMM,
    BIND_SYMBOL_FLAGS_WEAK_IMPORT, BIND_TYPE_POINTER,
};
use crate::output_chunks::header::{ChunkHeader, OutputSegment, SegmentView};
use crate::output_chunks::places::{self, segment_and_offset};
use crate::util::{self, bytes, order, write_sleb, write_uleb};
use vstd::prelude::*;

verus! {

/// The bind opcode stream.
#[derive(Debug)]
pub struct BindInfoSection {
    pub hdr: ChunkHeader,
    /// The encoded table.
    pub contents: Vec<u8>,
}

impl BindInfoSection {
    /// An empty table that is not placed yet.
    pub fn new() -> (r: BindInfoSection)
        ensures
            r.hdr@ == crate::output_chunks::header::linkedit_header(),
            r.contents.len() == 0,
    {
        BindInfoSection {
            hdr: ChunkHeader::linkedit(),
            contents: Vec::new(),
        }
    }
}

/// A slot that dyld fills with an import.
#[derive(Debug)]
pub struct Bind {
    /// The slot's address.
    pub addr: u64,
    /// The ordinal of the library, or one of the special ordinals, which
    /// are not positive.
    pub ordinal: i32,
    /// True when the import may be missing.
    pub weak: bool,
    /// The import's name.
    pub name: Vec<u8>,
    pub addend: i64,
}

/// What a bind says, as mathematical values.
#[verifier::ext_equal]
pub struct BindView {
    pub addr: u64,
    pub ordinal: i32,
    pub weak: bool,
    pub name: Seq<u8>,
    pub addend: i64,
}

impl View for Bind {
    type V = BindView;

    open spec fn view(&self) -> BindView {
        BindView {
            addr: self.addr,
            ordinal: self.ordinal,
            weak: self.weak,
            name: self.name@,
            addend: self.addend,
        }
    }
}

/// What a list of binds says.
pub open spec fn bind_views(binds: Seq<Bind>) -> Seq<BindView> {
    binds.map_values(|b: Bind| b@)
}

/// The opcodes that select a library. The special ordinals are coded as
/// immediates in two's complement.
pub open spec fn ordinal_ops(ordinal: i32) -> Seq<u8> {
    if ordinal <= 0 {
        seq![BIND_OPCODE_SET_DYLIB_SPECIAL_IMM | ((ordinal as int % 16) as u8)]
    } else if ordinal < 16 {
        seq![BIND_OPCODE_SET_DYLIB_ORDINAL_IMM | (ordinal as u8)]
    } else {
        seq![BIND_OPCODE_SET_DYLIB_ORDINAL_ULEB] + util::uleb(ordinal as nat)
    }
}

/// The opcodes that name the import and say that the slot is a pointer.
pub open spec fn name_ops(weak: bool, name: Seq<u8>) -> Seq<u8> {
    let flags = if weak {
        BIND_SYMBOL_FLAGS_WEAK_IMPORT
    } else {
        0
    };
    seq![BIND_OPCODE_SET_SYMBOL_TRAILING_FLAGS_IMM | flags] + name + seq![
        0u8,
        BIND_OPCODE_SET_TYPE_IMM | BIND_TYPE_POINTER,
    ]
}

/// The opcodes that set the addend, which persists across binds and is set
/// only on change.
pub open spec fn addend_ops(last: i64, addend: i64) -> Seq<u8> {
    if addend != last {
        seq![BIND_OPCODE_SET_ADDEND_SLEB] + util::sleb(addend as int)
    } else {
        Seq::empty()
    }
}

/// The opcodes that bind the slot at a place.
pub open spec fn slot_ops(seg: u8, off: u64) -> Seq<u8> {
    seq![BIND_OPCODE_SET_SEGMENT_AND_OFFSET_ULEB | seg] + util::uleb(off as nat) + seq![
        BIND_OPCODE_DO_BIND,
    ]
}

/// The opcodes of one bind.
pub open spec fn one_bind(b: BindView, last: i64, seg: u8, off: u64) -> Seq<u8> {
    ordinal_ops(b.ordinal) + name_ops(b.weak, b.name) + addend_ops(last, b.addend) + slot_ops(
        seg,
        off,
    )
}

/// The opcodes of the binds from `i` on, taken in the given order. `None` if
/// a slot lies in no segment.
pub open spec fn bind_ops(
    binds: Seq<BindView>,
    at: Seq<usize>,
    segs: Seq<SegmentView>,
    i: int,
    last: i64,
) -> Option<Seq<u8>>
    decreases at.len() - i,
{
    if i < 0 || i >= at.len() {
        Some(Seq::empty())
    } else {
        let b = binds[at[i] as int];
        match places::place_of(segs, b.addr, 0) {
            None => None,
            Some((seg, off)) => match bind_ops(binds, at, segs, i + 1, b.addend) {
                None => None,
                Some(rest) => Some(one_bind(b, last, seg as u8, off) + rest),
            },
        }
    }
}

/// The addresses of slots.
pub open spec fn slot_keys(binds: Seq<BindView>) -> Seq<u64> {
    binds.map_values(|b: BindView| b.addr)
}

/// The bind opcode stream, which lists the slots by address. `None` if a
/// slot lies in no segment.
pub open spec fn bind_info(binds: Seq<BindView>, segs: Seq<SegmentView>) -> Option<Seq<u8>> {
    if binds.len() == 0 {
        Some(Seq::empty())
    } else {
        match bind_ops(binds, order::stable_order_of(slot_keys(binds)), segs, 0, 0) {
            Some(ops) => Some(bytes::padded8(ops.push(BIND_OPCODE_DONE))),
            None => None,
        }
    }
}

fn push_ordinal(buf: &mut Vec<u8>, ordinal: i32)
    ensures
        final(buf)@ == old(buf)@ + ordinal_ops(ordinal),
{
    let ghost start = buf@;
    if ordinal <= 0 {
        let imm: u8 = ((ordinal as i64 + 0x1_0000_0000) % 16) as u8;
        assert(imm == ordinal as int % 16);
        buf.push(BIND_OPCODE_SET_DYLIB_SPECIAL_IMM | imm);
    } else if ordinal < 16 {
        buf.push(BIND_OPCODE_SET_DYLIB_ORDINAL_IMM | (ordinal as u8));
    } else {
        buf.push(BIND_OPCODE_SET_DYLIB_ORDINAL_ULEB);
        write_uleb(buf, ordinal as u64);
    }
    assert(buf@ =~= start + ordinal_ops(ordinal));
}

fn push_name_ops(buf: &mut Vec<u8>, weak: bool, name: &[u8])
    ensures
        final(buf)@ == old(buf)@ + name_ops(weak, name@),
{
    let ghost start = buf@;
    let flags: u8 = if weak {
        BIND_SYMBOL_FLAGS_WEAK_IMPORT
    } else {
        0
    };
    buf.push(BIND_OPCODE_SET_SYMBOL_TRAILING_FLAGS_IMM | flags);
    bytes::append(buf, name);
    buf.push(0);
    buf.push(BIND_OPCODE_SET_TYPE_IMM | BIND_TYPE_POINTER);
    assert(buf@ =~= start + name_ops(weak, name@));
}

fn push_bind(buf: &mut Vec<u8>, b: &Bind, last: i64, seg: u8, off: u64)
    ensures
        final(buf)@ == old(buf)@ + one_bind(b@, last, seg, off),
{
    let ghost start = buf@;
    push_ordinal(buf, b.ordinal);
    push_name_ops(buf, b.weak, b.name.as_slice());
    let ghost head = buf@;
    if b.addend != last {
        buf.push(BIND_OPCODE_SET_ADDEND_SLEB);
        write_sleb(buf, b.addend);
    }
    assert(buf@ =~= head + addend_ops(last, b.addend));
    let ghost head2 = buf@;
    buf.push(BIND_OPCODE_SET_SEGMENT_AND_OFFSET_ULEB | seg);
    write_uleb(buf, off);
    buf.push(BIND_OPCODE_DO_BIND);
    assert(buf@ =~= head2 + slot_ops(seg, off));
    proof {
        let a = ordinal_ops(b.ordinal);
        let n = name_ops(b.weak, b.name@);
        let d = addend_ops(last, b.addend);
        let s = slot_ops(seg, off);
        assert(start + a + n + d + s =~= start + (a + n + d + s));
    }
}

/// Encodes the bind opcode stream: it tells dyld which import to write into
/// each slot.
pub fn encode_bind_info(binds: &Vec<Bind>, segs: &Vec<OutputSegment>) -> (r: Option<Vec<u8>>)
    ensures
        match r {
            Some(b) => bind_info(
                bind_views(binds@),
                crate::output_chunks::header::segment_views(segs@),
            ) == Some(b@),
            None => bind_info(
                bind_views(binds@),
                crate::output_chunks::header::segment_views(segs@),
            ) is None,
        },
{
    let ghost sv = crate::output_chunks::header::segment_views(segs@);
    let ghost bv = bind_views(binds@);
    let mut buf: Vec<u8> = Vec::new();
    if binds.len() == 0 {
        assert(buf@ =~= Seq::empty());
        return Some(buf);
    }
    let mut keys: Vec<u64> = Vec::new();
    while keys.len() < binds.len()
        invariant
            keys.len() <= binds.len(),
            bv == bind_views(binds@),
            keys@ =~= slot_keys(bv).take(keys.len() as int),
        decreases binds.len() - keys.len(),
    {
        let k: u64 = binds[keys.len()].addr;
        keys.push(k);
    }
    assert(keys@ =~= slot_keys(bv));
    let at: Vec<usize> = order::stable_order(keys.as_slice());
    let mut last: i64 = 0;
    let mut i: usize = 0;
    let ghost all = bind_ops(bv, at@, sv, 0, 0);
    proof {
        if let Some(ops) = all {
            bytes::lemma_empty_left(ops);
        }
        assert(buf@ =~= Seq::empty());
    }
    while i < at.len()
        invariant
            i <= at.len(),
            sv == crate::output_chunks::header::segment_views(segs@),
            bv == bind_views(binds@),
            binds.len() > 0,
            at@ == order::stable_order_of(slot_keys(bv)),
            forall|k: int| 0 <= k < at.len() ==> (#[trigger] at[k]) < binds.len(),
            all == bind_ops(bv, at@, sv, 0, 0),
            bind_ops(bv, at@, sv, i as int, last) is None ==> all is None,
            bind_ops(bv, at@, sv, i as int, last) matches Some(rest) ==> all is Some && all->0
                == buf@ + rest,
        decreases at.len() - i,
    {
        let b: &Bind = &binds[at[i]];
        assert(bv[at[i as int] as int] == b@);
        match segment_and_offset(segs, b.addr) {
            None => {
                return None;
            },
            Some((seg, off)) => {
                proof {
                    if let Some(rest) = bind_ops(bv, at@, sv, i + 1, b.addend) {
                        bytes::lemma_assoc(buf@, one_bind(b@, last, seg as u8, off), rest);
                    }
                }
                push_bind(&mut buf, b, last, seg as u8, off);
                last = b.addend;
                i += 1;
            },
        }
    }
    proof {
        bytes::lemma_empty_right(buf@);
    }
    buf.push(BIND_OPCODE_DONE);
    bytes::pad8(&mut buf);
    Some(buf)
}

} // verus!
