//! Identical code folding.
//!
//! Two subsections can share one copy when their bytes, relocations and
//! unwind behaviour are all identical and folding cannot be observed: only
//! subsections that are defined by weak symbols alone are folded, which
//! C++ permits to coalesce.
//!
//! Every candidate gets a digest of its literal content. Refinement rounds
//! then rehash each candidate with the digests of its relocation targets,
//! so that the digest comes to describe the whole reachable shape.
//! Candidates with equal final digests are then compared with the first of
//! them, part by part, and folded onto it if they are the same.
use crate::input_files::UnwindRecord;
use crate::input_sections::{InputSection, Reloc, RelocTarget, NO_REPLACEMENT};
use crate::inputs::{resolve_isec, Inputs};
use crate::macho::consts::{
    N_SECT, N_WEAK_DEF, S_ATTR_LIVE_SUPPORT, S_ATTR_NO_DEAD_STRIP, S_ATTR_PURE_INSTRUCTIONS,
};
use crate::macho::{MachSection, NList, SectionView};
use crate::symbol::{Origin, Symbol};
use crate::util::bytes;
use crate::util::lists;
use crate::util::order;
use crate::util::siphash::{hash_message, Digest, SipHash13_128};
use vstd::prelude::*;
use vstd::string::*;

verus! {

/// What a relocation edge points at.
#[derive(Clone, Copy, Debug, PartialEq, Eq, Structural)]
pub enum Edge {
    /// A candidate, compared by its digest.
    Candidate(usize),
    /// A place in another subsection, compared by identity.
    Isec(usize, u64),
    /// A symbol without a subsection, compared by identity.
    Sym(u32),
}

/// True when an object's `k`th symbol table entry defines something in
/// subsection `id`, weakly or not as asked. Temporary labels of the compiler
/// do not make an address observable and do not count.
pub open spec fn defines_in(x: Inputs, o: int, k: int, id: int, weak: bool) -> bool {
    let n = x.objs[o].nlists[k];
    let s = x.symtab.syms[x.objs[o].syms[k] as int];
    &&& !n.stab()
    &&& n.kind() == N_SECT
    &&& (n.external() || !is_temporary(s.name@))
    &&& s.section() matches Some(i) && i == id
    &&& (n.n_desc & N_WEAK_DEF != 0) == weak
}

/// True for the name of a temporary label.
pub open spec fn is_temporary(name: Seq<u8>) -> bool {
    name.len() > 0 && (name[0] == 0x6c || name[0] == 0x4c)
}

/// True when one of the first `k` entries of object `o` defines something in
/// the subsection.
pub open spec fn obj_defines_in(x: Inputs, o: int, k: int, id: int, weak: bool) -> bool
    decreases k,
{
    k > 0 && (defines_in(x, o, k - 1, id, weak) || obj_defines_in(x, o, k - 1, id, weak))
}

/// True when one of the first `o` objects defines something in the
/// subsection.
pub open spec fn defined_in(x: Inputs, o: int, id: int, weak: bool) -> bool
    decreases o,
{
    o > 0 && (obj_defines_in(x, o - 1, x.objs[o - 1].nlists.len() as int, id, weak) || defined_in(
        x,
        o - 1,
        id,
        weak,
    ))
}

/// True for a subsection that may be folded: live, executable, and defined
/// exclusively by weak symbols.
pub open spec fn candidate(x: Inputs, id: int) -> bool {
    let s = x.isecs[id];
    &&& s.is_alive
    &&& s.replacement == NO_REPLACEMENT
    &&& foldable(x.header(s))
    &&& defined_in(x, x.objs.len() as int, id, true)
    &&& !defined_in(x, x.objs.len() as int, id, false)
}

/// True for a section whose pieces may be folded.
pub open spec fn foldable(hdr: SectionView) -> bool {
    &&& hdr.segname == "__TEXT".spec_bytes()
    &&& hdr.flags & S_ATTR_PURE_INSTRUCTIONS != 0
    &&& hdr.flags & S_ATTR_NO_DEAD_STRIP == 0
    &&& hdr.flags & S_ATTR_LIVE_SUPPORT == 0
}

fn is_foldable(hdr: &MachSection) -> (r: bool)
    ensures
        r == foldable(hdr@),
{
    bytes::same(hdr.segname.as_slice(), "__TEXT".as_bytes()) && hdr.flags
        & S_ATTR_PURE_INSTRUCTIONS != 0 && hdr.flags & S_ATTR_NO_DEAD_STRIP == 0 && hdr.flags
        & S_ATTR_LIVE_SUPPORT == 0
}

/// Which subsections are candidates.
pub open spec fn candidates(x: Inputs) -> Seq<bool> {
    Seq::new(x.isecs@.len(), |i: int| candidate(x, i))
}

/// Finds the subsections that have a definition, weak or not as asked.
fn find_defined(x: &Inputs, weak: bool) -> (r: Vec<bool>)
    requires
        x.wf(),
    ensures
        r.len() == x.isecs.len(),
        forall|id: int|
            0 <= id < r.len() ==> #[trigger] r[id] == defined_in(
                *x,
                x.objs.len() as int,
                id,
                weak,
            ),
{
    let mut seen: Vec<bool> = Vec::new();
    while seen.len() < x.isecs.len()
        invariant
            seen.len() <= x.isecs.len(),
            forall|id: int| 0 <= id < seen.len() ==> !#[trigger] seen[id],
        decreases x.isecs.len() - seen.len(),
    {
        seen.push(false);
    }
    let mut o: usize = 0;
    while o < x.objs.len()
        invariant
            x.wf(),
            o <= x.objs.len(),
            seen.len() == x.isecs.len(),
            forall|id: int|
                0 <= id < seen.len() ==> #[trigger] seen[id] == defined_in(*x, o as int, id, weak),
        decreases x.objs.len() - o,
    {
        proof {
            assert(x.obj_ok(x.objs[o as int]));
        }
        let ghost start = seen@;
        let mut k: usize = 0;
        while k < x.objs[o].nlists.len()
            invariant
                x.wf(),
                o < x.objs.len(),
                x.obj_ok(x.objs[o as int]),
                k <= x.objs[o as int].nlists.len(),
                seen.len() == x.isecs.len(),
                start.len() == seen.len(),
                forall|id: int|
                    0 <= id < seen.len() ==> #[trigger] seen[id] == (start[id] || obj_defines_in(
                        *x,
                        o as int,
                        k as int,
                        id,
                        weak,
                    )),
            decreases x.objs[o as int].nlists.len() - k,
        {
            let n: NList = x.objs[o].nlists[k];
            let sid: usize = x.objs[o].syms[k] as usize;
            proof {
                assert(x.sym_ok(x.symtab.syms[sid as int]));
            }
            let s: &Symbol = &x.symtab.syms[sid];
            let temporary: bool = s.name.len() > 0 && (s.name[0] == 0x6c || s.name[0] == 0x4c);
            if !n.is_stab() && n.n_type() == N_SECT && (n.is_extern() || !temporary) && (n.n_desc
                & N_WEAK_DEF != 0) == weak {
                if let Some(i) = s.isec() {
                    seen.set(i as usize, true);
                }
            }
            k += 1;
        }
        o += 1;
    }
    seen
}

/// Finds the candidates.
fn find_candidates(x: &Inputs) -> (r: Vec<bool>)
    requires
        x.wf(),
    ensures
        r@ == candidates(*x),
{
    let weak: Vec<bool> = find_defined(x, true);
    let strong: Vec<bool> = find_defined(x, false);
    let mut r: Vec<bool> = Vec::new();
    while r.len() < x.isecs.len()
        invariant
            x.wf(),
            r.len() <= x.isecs.len(),
            weak.len() == x.isecs.len(),
            strong.len() == x.isecs.len(),
            forall|id: int|
                0 <= id < weak.len() ==> #[trigger] weak[id] == defined_in(
                    *x,
                    x.objs.len() as int,
                    id,
                    true,
                ),
            forall|id: int|
                0 <= id < strong.len() ==> #[trigger] strong[id] == defined_in(
                    *x,
                    x.objs.len() as int,
                    id,
                    false,
                ),
            forall|id: int| 0 <= id < r.len() ==> #[trigger] r[id] == candidate(*x, id),
        decreases x.isecs.len() - r.len(),
    {
        let i: usize = r.len();
        let c: bool = x.isecs[i].is_alive && x.isecs[i].replacement == NO_REPLACEMENT
            && is_foldable(x.hdr_of(i)) && weak[i] && !strong[i];
        r.push(c);
    }
    assert(r@ =~= candidates(*x));
    r
}

/// The ids of the marked subsections.
pub open spec fn ids(n: int) -> Seq<usize> {
    Seq::new(n as nat, |i: int| i as usize)
}

/// The place that a relocation refers to, as an edge, and what it adds to
/// that.
pub open spec fn edge_of(x: Inputs, flags: Seq<bool>, obj: u32, rel: Reloc) -> (Edge, u64) {
    match rel.refers_to() {
        RelocTarget::Sym(idx) => {
            let id = x.objs[obj as int].syms[idx as int];
            let s = x.symtab.syms[id as int];
            match (s.defined_by(), s.section()) {
                (Origin::Obj(_), Some(isec)) => {
                    let to = crate::inputs::survivor(x.isecs@, isec as int);
                    if flags[to] {
                        (
                            Edge::Candidate(lists::count_kept(flags, to) as usize),
                            bytes::word64(rel.addend + s.value),
                        )
                    } else {
                        (Edge::Isec(to as usize, s.value), bytes::word64(rel.addend as int))
                    }
                },
                _ => (Edge::Sym(id), bytes::word64(rel.addend as int)),
            }
        },
        RelocTarget::Section(isec) => {
            let to = crate::inputs::survivor(x.isecs@, isec as int);
            if flags[to] {
                (
                    Edge::Candidate(lists::count_kept(flags, to) as usize),
                    bytes::word64(rel.addend as int),
                )
            } else {
                (Edge::Isec(to as usize, 0), bytes::word64(rel.addend as int))
            }
        },
    }
}

/// What finding edges needs to know of the candidates.
pub struct CandidateTable {
    /// Which subsections are candidates.
    pub flags: Vec<bool>,
    /// Each subsection's rank among the candidates.
    pub ranks: Vec<usize>,
}

impl CandidateTable {
    /// True when the table is about the inputs.
    pub open spec fn ok(self, x: Inputs) -> bool {
        &&& self.flags.len() == x.isecs.len()
        &&& self.ranks.len() == x.isecs.len()
        &&& forall|i: int|
            0 <= i < self.ranks.len() ==> #[trigger] self.ranks[i] == lists::count_kept(
                self.flags@,
                i,
            )
    }
}

fn section_edge(x: &Inputs, t: &CandidateTable, isec: usize, value: u64, addend: i64) -> (r: (
    Edge,
    u64,
))
    requires
        x.wf(),
        t.ok(*x),
        isec < x.isecs.len(),
    ensures
        ({
            let to = crate::inputs::survivor(x.isecs@, isec as int);
            if t.flags[to] {
                r == (
                    Edge::Candidate(lists::count_kept(t.flags@, to) as usize),
                    bytes::word64(addend + value),
                )
            } else {
                r == (Edge::Isec(to as usize, value), bytes::word64(addend as int))
            }
        }),
        r.0 matches Edge::Candidate(c) ==> c < lists::count_kept(
            t.flags@,
            t.flags.len() as int,
        ),
{
    proof {
        crate::inputs::lemma_wf_redirects(*x);
    }
    let to: usize = resolve_isec(&x.isecs, isec);
    if t.flags[to] {
        proof {
            lists::lemma_count_kept(t.flags@, to as int);
        }
        (Edge::Candidate(t.ranks[to]), bytes::offset_by(value, addend))
    } else {
        (Edge::Isec(to, value), bytes::from_signed64(addend))
    }
}

fn find_edge(x: &Inputs, t: &CandidateTable, obj: u32, rel: &Reloc) -> (r: (Edge, u64))
    requires
        x.wf(),
        t.ok(*x),
        obj < x.objs.len(),
        x.reloc_ok(obj, *rel),
    ensures
        r == edge_of(*x, t.flags@, obj, *rel),
        r.0 matches Edge::Candidate(c) ==> c < lists::count_kept(
            t.flags@,
            t.flags.len() as int,
        ),
{
    proof {
        assert(x.obj_ok(x.objs[obj as int]));
    }
    match rel.target() {
        RelocTarget::Sym(idx) => {
            let id: u32 = x.objs[obj as usize].syms[idx as usize];
            let s: &Symbol = &x.symtab.syms[id as usize];
            proof {
                assert(x.sym_ok(x.symtab.syms[id as int]));
            }
            match (s.origin(), s.isec()) {
                (Origin::Obj(_), Some(isec)) => section_edge(
                    x,
                    t,
                    isec as usize,
                    s.value,
                    rel.addend,
                ),
                _ => (Edge::Sym(id), bytes::from_signed64(rel.addend)),
            }
        },
        RelocTarget::Section(isec) => section_edge(x, t, isec as usize, 0, rel.addend),
    }
}

/// A truth value as a byte.
pub open spec fn bit(b: bool) -> u8 {
    if b {
        1
    } else {
        0
    }
}

fn push_bit(buf: &mut Vec<u8>, b: bool)
    ensures
        final(buf)@ == old(buf)@.push(bit(b)),
{
    if b {
        buf.push(1);
    } else {
        buf.push(0);
    }
}

/// What an edge adds to the message of a candidate. A candidate edge adds
/// nothing but its kind; the rounds mix in the target's digest.
pub open spec fn edge_message(e: Edge) -> Seq<u8> {
    match e {
        Edge::Candidate(_) => seq![0x63u8],
        Edge::Isec(i, v) => seq![0x69u8] + bytes::le64(i as u64) + bytes::le64(v),
        Edge::Sym(s) => seq![0x73u8] + bytes::le32(s),
    }
}

/// What a relocation adds to the message of a candidate.
pub open spec fn reloc_message(x: Inputs, flags: Seq<bool>, obj: u32, rel: Reloc) -> Seq<u8> {
    let e = edge_of(x, flags, obj, rel);
    bytes::le32(rel.offset) + seq![
        rel.r_type,
        rel.size,
        bit(rel.is_pcrel),
        bit(rel.is_subtracted),
    ] + bytes::le64(e.1) + edge_message(e.0)
}

fn push_reloc(buf: &mut Vec<u8>, x: &Inputs, t: &CandidateTable, obj: u32, rel: &Reloc)
    requires
        x.wf(),
        t.ok(*x),
        obj < x.objs.len(),
        x.reloc_ok(obj, *rel),
    ensures
        final(buf)@ == old(buf)@ + reloc_message(*x, t.flags@, obj, *rel),
{
    let ghost start = buf@;
    let e: (Edge, u64) = find_edge(x, t, obj, rel);
    let mut m: Vec<u8> = Vec::new();
    bytes::push32(&mut m, rel.offset);
    m.push(rel.r_type);
    m.push(rel.size);
    push_bit(&mut m, rel.is_pcrel);
    push_bit(&mut m, rel.is_subtracted);
    assert(m@ =~= bytes::le32(rel.offset) + seq![
        rel.r_type,
        rel.size,
        bit(rel.is_pcrel),
        bit(rel.is_subtracted),
    ]);
    bytes::push64(&mut m, e.1);
    let ghost head = m@;
    match e.0 {
        Edge::Candidate(_) => {
            m.push(0x63);
            assert(m@ =~= head + edge_message(e.0));
        },
        Edge::Isec(i, v) => {
            m.push(0x69);
            bytes::push64(&mut m, i as u64);
            bytes::push64(&mut m, v);
            assert(m@ =~= head + edge_message(e.0));
        },
        Edge::Sym(s) => {
            m.push(0x73);
            bytes::push32(&mut m, s);
            assert(m@ =~= head + edge_message(e.0));
        },
    }
    bytes::append(buf, m.as_slice());
}

/// The messages of the first `k` relocations of a subsection.
pub open spec fn relocs_message(x: Inputs, flags: Seq<bool>, s: InputSection, k: int) -> Seq<u8>
    decreases k,
{
    if k <= 0 {
        Seq::empty()
    } else {
        relocs_message(x, flags, s, k - 1) + reloc_message(x, flags, s.obj, s.relocs[k - 1])
    }
}

/// An optional index as a word.
pub open spec fn optional_word(o: Option<usize>) -> u64 {
    match o {
        Some(i) => i as u64,
        None => u64::MAX,
    }
}

/// What an unwind record adds to the message: unwinding is part of a
/// function's identity.
pub open spec fn record_message(x: Inputs, r: UnwindRecord) -> Seq<u8> {
    bytes::le32(r.input_offset) + bytes::le32(r.code_len) + bytes::le32(r.encoding) + bytes::le64(
        match r.personality {
            Some(p) => p as u64,
            None => u64::MAX,
        },
    ) + bytes::le64(optional_word(r.fde)) + match r.lsda {
        Some(l) => bytes::le64(crate::inputs::survivor(x.isecs@, l.0 as int) as u64)
            + bytes::le32(l.1),
        None => Seq::empty(),
    }
}

fn push_record(buf: &mut Vec<u8>, x: &Inputs, r: &UnwindRecord)
    requires
        x.wf(),
        x.record_ok(*r),
    ensures
        final(buf)@ == old(buf)@ + record_message(*x, *r),
{
    proof {
        crate::inputs::lemma_wf_redirects(*x);
    }
    let mut m: Vec<u8> = Vec::new();
    bytes::push32(&mut m, r.input_offset);
    proof {
        bytes::lemma_empty_left(bytes::le32(r.input_offset));
    }
    bytes::push32(&mut m, r.code_len);
    bytes::push32(&mut m, r.encoding);
    let personality: u64 = match r.personality {
        Some(p) => p as u64,
        None => u64::MAX,
    };
    bytes::push64(&mut m, personality);
    let fde: u64 = match r.fde {
        Some(f) => f as u64,
        None => u64::MAX,
    };
    bytes::push64(&mut m, fde);
    let ghost head = m@;
    match r.lsda {
        Some(l) => {
            let s: usize = resolve_isec(&x.isecs, l.0);
            bytes::push64(&mut m, s as u64);
            bytes::push32(&mut m, l.1);
            proof {
                bytes::lemma_assoc(head, bytes::le64(s as u64), bytes::le32(l.1));
            }
        },
        None => {
            proof {
                bytes::lemma_empty_right(head);
            }
        },
    }
    bytes::append(buf, m.as_slice());
}

/// The messages of the first `k` unwind records of a subsection.
pub open spec fn records_message(x: Inputs, s: InputSection, k: int) -> Seq<u8>
    decreases k,
{
    if k <= 0 {
        Seq::empty()
    } else {
        records_message(x, s, k - 1) + record_message(
            x,
            x.unwind_records[s.unwind_offset + k - 1],
        )
    }
}

/// What a candidate is identified by: its bytes, its relocations as far as
/// they lead to no candidate, and its unwind records.
pub open spec fn base_message(x: Inputs, flags: Seq<bool>, id: int) -> Seq<u8> {
    let s = x.isecs[id];
    bytes::le32(x.header(s).flags) + bytes::le64(s.size) + bytes::le64(s.data.len() as u64)
        + s.data@ + relocs_message(x, flags, s, s.relocs.len() as int) + records_message(
        x,
        s,
        s.nunwind as int,
    )
}

/// The key of all digests.
pub open spec fn key() -> Seq<u8> {
    "mold-macho-icf!!".spec_bytes()
}

proof fn lemma_key()
    ensures
        key().len() == 16,
{
    reveal_strlit("mold-macho-icf!!");
    is_ascii_spec_bytes("mold-macho-icf!!");
}

fn base_digest(x: &Inputs, t: &CandidateTable, id: usize) -> (r: Digest)
    requires
        x.wf(),
        t.ok(*x),
        id < x.isecs.len(),
        x.isecs[id as int].is_alive,
    ensures
        r == crate::util::siphash::siphash(key(), base_message(*x, t.flags@, id as int)),
{
    proof {
        assert(x.isec_ok(x.isecs[id as int]));
        assert(x.range_ok(id as int));
    }
    let s: &InputSection = &x.isecs[id];
    let mut m: Vec<u8> = Vec::new();
    bytes::push32(&mut m, x.hdr_of(id).flags);
    proof {
        bytes::lemma_empty_left(bytes::le32(x.header(*s).flags));
    }
    bytes::push64(&mut m, s.size);
    bytes::push64(&mut m, s.data.len() as u64);
    bytes::append(&mut m, s.data.as_slice());
    let ghost head = m@;
    let mut k: usize = 0;
    proof {
        bytes::lemma_empty_right(head);
    }
    while k < s.relocs.len()
        invariant
            x.wf(),
            t.ok(*x),
            x.isec_ok(*s),
            k <= s.relocs.len(),
            m@ == head + relocs_message(*x, t.flags@, *s, k as int),
        decreases s.relocs.len() - k,
    {
        proof {
            assert(x.reloc_ok(s.obj, s.relocs[k as int]));
            bytes::lemma_assoc(
                head,
                relocs_message(*x, t.flags@, *s, k as int),
                reloc_message(*x, t.flags@, s.obj, s.relocs[k as int]),
            );
        }
        push_reloc(&mut m, x, t, s.obj, &s.relocs[k]);
        k += 1;
    }
    let ghost head = m@;
    let mut k: usize = 0;
    let n: usize = s.nunwind as usize;
    proof {
        bytes::lemma_empty_right(head);
    }
    while k < n
        invariant
            x.wf(),
            id < x.isecs.len(),
            *s == x.isecs[id as int],
            s.is_alive,
            x.range_ok(id as int),
            n == s.nunwind,
            k <= n,
            m@ == head + records_message(*x, *s, k as int),
        decreases n - k,
    {
        proof {
            assert(x.record_ok(x.unwind_records[s.unwind_offset + k]));
            bytes::lemma_assoc(
                head,
                records_message(*x, *s, k as int),
                record_message(*x, x.unwind_records[s.unwind_offset + k]),
            );
        }
        let r: UnwindRecord = x.unwind_records[s.unwind_offset as usize + k];
        push_record(&mut m, x, &r);
        k += 1;
    }
    proof {
        lemma_key();
    }
    hash_message("mold-macho-icf!!".as_bytes(), m.as_slice())
}

/// The candidates that the first `k` relocations of a subsection lead to.
pub open spec fn neighbours(x: Inputs, flags: Seq<bool>, s: InputSection, k: int) -> Seq<usize>
    decreases k,
{
    if k <= 0 {
        Seq::empty()
    } else {
        let before = neighbours(x, flags, s, k - 1);
        match edge_of(x, flags, s.obj, s.relocs[k - 1]).0 {
            Edge::Candidate(c) => before.push(c),
            _ => before,
        }
    }
}

fn list_neighbours(x: &Inputs, t: &CandidateTable, id: usize) -> (r: Vec<usize>)
    requires
        x.wf(),
        t.ok(*x),
        id < x.isecs.len(),
    ensures
        r@ == neighbours(
            *x,
            t.flags@,
            x.isecs[id as int],
            x.isecs[id as int].relocs.len() as int,
        ),
        forall|k: int|
            0 <= k < r.len() ==> (#[trigger] r[k]) < lists::count_kept(
                t.flags@,
                t.flags.len() as int,
            ),
{
    proof {
        assert(x.isec_ok(x.isecs[id as int]));
    }
    let s: &InputSection = &x.isecs[id];
    let mut r: Vec<usize> = Vec::new();
    let mut k: usize = 0;
    while k < s.relocs.len()
        invariant
            x.wf(),
            t.ok(*x),
            x.isec_ok(*s),
            k <= s.relocs.len(),
            r@ == neighbours(*x, t.flags@, *s, k as int),
            forall|k: int|
                0 <= k < r.len() ==> (#[trigger] r[k]) < lists::count_kept(
                    t.flags@,
                    t.flags.len() as int,
                ),
        decreases s.relocs.len() - k,
    {
        proof {
            assert(x.reloc_ok(s.obj, s.relocs[k as int]));
        }
        match find_edge(x, t, s.obj, &s.relocs[k]).0 {
            Edge::Candidate(c) => r.push(c),
            _ => {},
        }
        k += 1;
    }
    r
}

/// The digests of the first `k` listed vertices, as a message.
pub open spec fn digests_message(d: Seq<Digest>, at: Seq<usize>, k: int) -> Seq<u8>
    decreases k,
{
    if k <= 0 {
        Seq::empty()
    } else {
        digests_message(d, at, k - 1) + d[at[k - 1] as int].encoded()
    }
}

/// A vertex's next digest: that of its own digest and those of its
/// neighbours.
pub open spec fn next_digest(d: Seq<Digest>, edges: Seq<Seq<usize>>, i: int) -> Digest {
    crate::util::siphash::siphash(
        key(),
        d[i].encoded() + digests_message(d, edges[i], edges[i].len() as int),
    )
}

/// One round: every vertex gets its next digest.
pub open spec fn propagated(d: Seq<Digest>, edges: Seq<Seq<usize>>) -> Seq<Digest> {
    Seq::new(d.len(), |i: int| next_digest(d, edges, i))
}

/// Three rounds.
pub open spec fn thrice(d: Seq<Digest>, edges: Seq<Seq<usize>>) -> Seq<Digest> {
    propagated(propagated(propagated(d, edges), edges), edges)
}

/// The first vertex at or behind `from` that has digest `v`.
pub open spec fn first_with(d: Seq<Digest>, v: Digest, from: int) -> int
    decreases d.len() - from,
{
    if from < 0 || from >= d.len() || d[from] == v {
        from
    } else {
        first_with(d, v, from + 1)
    }
}

/// The first vertex of a vertex's class.
pub open spec fn leader_of(d: Seq<Digest>, i: int) -> int {
    first_with(d, d[i], 0)
}

/// The number of classes that start among the first `n` vertices.
pub open spec fn class_count(d: Seq<Digest>, n: int) -> int
    decreases n,
{
    if n <= 0 {
        0
    } else {
        class_count(d, n - 1) + if leader_of(d, n - 1) == n - 1 {
            1int
        } else {
            0
        }
    }
}

proof fn lemma_class_count(d: Seq<Digest>, n: int)
    requires
        0 <= n,
    ensures
        0 <= class_count(d, n) <= n,
    decreases n,
{
    if n > 0 {
        lemma_class_count(d, n - 1);
    }
}

/// Refines the digests until the number of classes stops growing.
pub open spec fn refined(d: Seq<Digest>, edges: Seq<Seq<usize>>, classes: int) -> Seq<Digest>
    decreases d.len() - classes,
{
    let next = thrice(d, edges);
    let n = class_count(next, next.len() as int);
    if n <= classes || n > d.len() {
        next
    } else {
        refined(next, edges, n)
    }
}

fn propagate(d: &Vec<Digest>, edges: &Vec<Vec<usize>>) -> (r: Vec<Digest>)
    requires
        edges.len() == d.len(),
        crate::util::graph::in_graph(
            crate::util::graph::lists(edges@),
            Seq::empty(),
            d.len() as int,
        ),
    ensures
        r@ == propagated(d@, crate::util::graph::lists(edges@)),
{
    let ghost ev = crate::util::graph::lists(edges@);
    let mut r: Vec<Digest> = Vec::new();
    while r.len() < d.len()
        invariant
            r.len() <= d.len(),
            edges.len() == d.len(),
            ev == crate::util::graph::lists(edges@),
            crate::util::graph::in_graph(ev, Seq::empty(), d.len() as int),
            forall|i: int| 0 <= i < r.len() ==> #[trigger] r[i] == next_digest(d@, ev, i),
        decreases d.len() - r.len(),
    {
        let i: usize = r.len();
        proof {
            lemma_key();
        }
        let mut h = SipHash13_128::new("mold-macho-icf!!".as_bytes());
        assert(h.buf@ =~= Seq::empty());
        h.update_digest(d[i]);
        proof {
            bytes::lemma_empty_left(d[i as int].encoded());
            bytes::lemma_empty_right(d[i as int].encoded());
        }
        let mut k: usize = 0;
        while k < edges[i].len()
            invariant
                i < d.len(),
                edges.len() == d.len(),
                ev == crate::util::graph::lists(edges@),
                crate::util::graph::in_graph(ev, Seq::empty(), d.len() as int),
                k <= edges[i as int].len(),
                h.buf.len() < 8,
                h.has_read(
                    key(),
                    d[i as int].encoded() + digests_message(d@, ev[i as int], k as int),
                ),
            decreases edges[i as int].len() - k,
        {
            let c: usize = edges[i][k];
            proof {
                assert(ev[i as int][k as int] == c);
                bytes::lemma_assoc(
                    d[i as int].encoded(),
                    digests_message(d@, ev[i as int], k as int),
                    d[c as int].encoded(),
                );
            }
            h.update_digest(d[c]);
            k += 1;
        }
        let next: Digest = h.finish();
        assert(ev[i as int].len() == edges[i as int].len());
        r.push(next);
    }
    assert(r@ =~= propagated(d@, ev));
    r
}

proof fn lemma_first_with(d: Seq<Digest>, v: Digest, from: int, at: int)
    requires
        0 <= from <= at < d.len(),
        d[at] == v,
        forall|j: int| from <= j < at ==> #[trigger] d[j] != v,
    ensures
        first_with(d, v, from) == at,
    decreases at - from,
{
    if from < at {
        lemma_first_with(d, v, from + 1, at);
    }
}

/// Finds the first vertex of each vertex's class.
fn find_leaders(d: &Vec<Digest>) -> (r: Vec<usize>)
    ensures
        r.len() == d.len(),
        forall|i: int| 0 <= i < r.len() ==> #[trigger] r[i] == leader_of(d@, i) && r[i] <= i,
{
    let mut keys: Vec<(u64, u64, u64)> = Vec::new();
    let mut r: Vec<usize> = Vec::new();
    while keys.len() < d.len()
        invariant
            keys.len() <= d.len(),
            r.len() == keys.len(),
            forall|i: int|
                0 <= i < keys.len() ==> #[trigger] keys[i] == (d[i].hi, d[i].lo, 0u64),
        decreases d.len() - keys.len(),
    {
        let v: Digest = d[keys.len()];
        keys.push((v.hi, v.lo, 0));
        r.push(0);
    }
    let sorted: Vec<usize> = order::stable_order(keys.as_slice());
    let mut p: usize = 0;
    let mut start: usize = 0;
    while p < sorted.len()
        invariant
            keys.len() == d.len(),
            r.len() == d.len(),
            sorted.len() == d.len(),
            forall|i: int|
                0 <= i < keys.len() ==> #[trigger] keys[i] == (d[i].hi, d[i].lo, 0u64),
            order::is_stable_order(keys@, sorted@),
            start <= p <= sorted.len(),
            p > 0 ==> start < p,
            forall|q: int|
                start <= q < p ==> d[#[trigger] sorted[q] as int] == d[sorted[start as int] as int],
            start > 0 ==> d[sorted[start - 1] as int] != d[sorted[start as int] as int],
            forall|q: int|
                0 <= q < p ==> r[#[trigger] sorted[q] as int] == leader_of(
                    d@,
                    sorted[q] as int,
                ) && r[sorted[q] as int] <= sorted[q],
        decreases sorted.len() - p,
    {
        let at: usize = sorted[p];
        assert(sorted[start as int] < d.len());
        if d[at] != d[sorted[start]] {
            proof {
                assert(d[sorted[p - 1] as int] == d[sorted[start as int] as int]);
            }
            start = p;
        }
        let lead: usize = sorted[start];
        proof {
            let v = d[at as int];
            assert(d[lead as int] == v);
            assert forall|j: int| 0 <= j < lead implies #[trigger] d[j] != v by {
                assert(sorted@.contains(j as usize));
                let q = choose|q: int| 0 <= q < sorted.len() && sorted@[q] == j as usize;
                if d[j] == v {
                    if q > start {
                        assert(order::item_before(
                            keys@,
                            sorted@[start as int] as int,
                            sorted@[q] as int,
                        ));
                        assert(keys[lead as int] == keys[j]);
                    } else if q < start {
                        let e = start - 1;
                        assert(keys[sorted[e] as int] != keys[lead as int]);
                        assert(order::item_before(
                            keys@,
                            sorted@[e] as int,
                            sorted@[start as int] as int,
                        ));
                        if q < e {
                            assert(order::item_before(
                                keys@,
                                sorted@[q] as int,
                                sorted@[e] as int,
                            ));
                        }
                        assert(keys[j] == keys[lead as int]);
                    }
                }
            }
            lemma_first_with(d@, v, 0, lead as int);
            assert(lead <= at) by {
                if lead > at {
                    assert(d[at as int] != v);
                }
            }
        }
        let ghost before = r@;
        r.set(at, lead);
        proof {
            assert forall|q: int| 0 <= q < p + 1 implies r[#[trigger] sorted[q] as int]
                == leader_of(d@, sorted[q] as int) && r[sorted[q] as int] <= sorted[q] by {
                if q < p {
                    assert(before[sorted[q] as int] == leader_of(d@, sorted[q] as int));
                }
            }
        }
        p += 1;
    }
    proof {
        assert forall|i: int| 0 <= i < r.len() implies #[trigger] r[i] == leader_of(d@, i) && r[i]
            <= i by {
            assert(sorted@.contains(i as usize));
            let q = choose|q: int| 0 <= q < sorted.len() && sorted@[q] == i as usize;
            assert(r[sorted[q] as int] == leader_of(d@, sorted[q] as int));
        }
    }
    r
}

fn count_classes(leaders: &Vec<usize>, Ghost(d): Ghost<Seq<Digest>>) -> (r: usize)
    requires
        leaders.len() == d.len(),
        forall|i: int| 0 <= i < leaders.len() ==> #[trigger] leaders[i] == leader_of(d, i),
    ensures
        r == class_count(d, d.len() as int),
{
    let mut n: usize = 0;
    let mut i: usize = 0;
    while i < leaders.len()
        invariant
            i <= leaders.len(),
            n <= i,
            leaders.len() == d.len(),
            forall|i: int| 0 <= i < leaders.len() ==> #[trigger] leaders[i] == leader_of(d, i),
            n == class_count(d, i as int),
        decreases leaders.len() - i,
    {
        if leaders[i] == i {
            n += 1;
        }
        i += 1;
    }
    n
}

/// Refines digests until the number of classes stops growing, and finds the
/// first vertex of each class.
fn refine(base: Vec<Digest>, edges: &Vec<Vec<usize>>) -> (r: Vec<usize>)
    requires
        edges.len() == base.len(),
        crate::util::graph::in_graph(
            crate::util::graph::lists(edges@),
            Seq::empty(),
            base.len() as int,
        ),
    ensures
        r.len() == base.len(),
        ({
            let d = refined(base@, crate::util::graph::lists(edges@), 0);
            forall|i: int| 0 <= i < r.len() ==> #[trigger] r[i] == leader_of(d, i) && r[i] <= i
        }),
{
    let ghost ev = crate::util::graph::lists(edges@);
    let ghost goal = refined(base@, ev, 0);
    let mut d: Vec<Digest> = base;
    let mut classes: usize = 0;
    loop
        invariant
            edges.len() == base.len(),
            d.len() == base.len(),
            ev == crate::util::graph::lists(edges@),
            crate::util::graph::in_graph(ev, Seq::empty(), base.len() as int),
            refined(d@, ev, classes as int) == goal,
            goal == refined(base@, ev, 0),
        decreases base.len() - classes,
    {
        let a: Vec<Digest> = propagate(&d, edges);
        let b: Vec<Digest> = propagate(&a, edges);
        let c: Vec<Digest> = propagate(&b, edges);
        assert(c@ == thrice(d@, ev));
        let leaders: Vec<usize> = find_leaders(&c);
        let n: usize = count_classes(&leaders, Ghost(c@));
        proof {
            lemma_class_count(c@, c.len() as int);
        }
        if n <= classes {
            return leaders;
        }
        classes = n;
        d = c;
    }
}

/// One fold: a member of a class is replaced by the class's leader, which
/// then carries the stronger alignment of the two.
pub open spec fn fold_one(isecs: Seq<InputSection>, id: int, leader: int) -> Seq<InputSection> {
    if id == leader {
        isecs
    } else {
        let a = isecs.update(id, InputSection { replacement: leader as u32, ..isecs[id] });
        if a[leader].p2align < isecs[id].p2align {
            a.update(leader, InputSection { p2align: isecs[id].p2align, ..a[leader] })
        } else {
            a
        }
    }
}

/// The subsections after the first `n` candidates were folded.
pub open spec fn folded(
    isecs: Seq<InputSection>,
    cands: Seq<usize>,
    leaders: Seq<usize>,
    n: int,
) -> Seq<InputSection>
    decreases n,
{
    if n <= 0 {
        isecs
    } else {
        fold_one(
            folded(isecs, cands, leaders, n - 1),
            cands[n - 1] as int,
            cands[leaders[n - 1] as int] as int,
        )
    }
}

fn fold(isecs: &mut Vec<InputSection>, cands: &Vec<usize>, leaders: &Vec<usize>)
    requires
        leaders.len() == cands.len(),
        old(isecs).len() < u32::MAX,
        forall|i: int| 0 <= i < cands.len() ==> (#[trigger] cands[i]) < old(isecs).len(),
        forall|i: int| 0 <= i < leaders.len() ==> (#[trigger] leaders[i]) <= i,
    ensures
        final(isecs)@ == folded(old(isecs)@, cands@, leaders@, cands.len() as int),
        final(isecs).len() == old(isecs).len(),
{
    let ghost start = isecs@;
    let mut i: usize = 0;
    while i < cands.len()
        invariant
            i <= cands.len(),
            leaders.len() == cands.len(),
            isecs.len() == start.len(),
            start.len() < u32::MAX,
            forall|i: int| 0 <= i < cands.len() ==> (#[trigger] cands[i]) < start.len(),
            forall|i: int| 0 <= i < leaders.len() ==> (#[trigger] leaders[i]) <= i,
            isecs@ == folded(start, cands@, leaders@, i as int),
        decreases cands.len() - i,
    {
        let id: usize = cands[i];
        let l: usize = leaders[i];
        let leader: usize = cands[l];
        let ghost before = isecs@;
        if id != leader {
            isecs[id].replacement = leader as u32;
            let p2: u8 = isecs[id].p2align;
            if isecs[leader].p2align < p2 {
                isecs[leader].p2align = p2;
            }
        }
        assert(isecs@ =~= fold_one(before, id as int, leader as int));
        i += 1;
    }
}

/// The base digests of the candidates.
pub open spec fn base_digests(x: Inputs, flags: Seq<bool>, cands: Seq<usize>) -> Seq<Digest> {
    cands.map_values(
        |id: usize|
            crate::util::siphash::siphash(key(), base_message(x, flags, id as int)),
    )
}

/// The candidate edges of the candidates.
pub open spec fn candidate_edges(x: Inputs, flags: Seq<bool>, cands: Seq<usize>) -> Seq<
    Seq<usize>,
> {
    cands.map_values(
        |id: usize|
            neighbours(x, flags, x.isecs[id as int], x.isecs[id as int].relocs.len() as int),
    )
}

/// The candidates in order.
pub open spec fn candidate_ids(x: Inputs) -> Seq<usize> {
    lists::kept(ids(x.isecs.len() as int), candidates(x))
}

/// The converged digests of the candidates.
#[verifier::opaque]
pub open spec fn final_digests(x: Inputs) -> Seq<Digest> {
    let flags = candidates(x);
    let cands = candidate_ids(x);
    refined(base_digests(x, flags, cands), candidate_edges(x, flags, cands), 0)
}

/// The leaders of all vertices' classes.
#[verifier::opaque]
pub open spec fn all_leaders(d: Seq<Digest>) -> Seq<usize> {
    Seq::new(d.len(), |i: int| leader_of(d, i) as usize)
}

/// True when two edges lead to the same place once the classes were folded.
pub open spec fn same_edge(leaders: Seq<usize>, a: Edge, b: Edge) -> bool {
    match (a, b) {
        (Edge::Candidate(i), Edge::Candidate(j)) => leaders[i as int] == leaders[j as int],
        _ => a == b,
    }
}

/// True when two relocations do the same and lead to the same place once the
/// classes were folded.
pub open spec fn same_reloc(
    x: Inputs,
    leaders: Seq<usize>,
    a: (u32, Reloc),
    b: (u32, Reloc),
) -> bool {
    let e = edge_of(x, candidates(x), a.0, a.1);
    let f = edge_of(x, candidates(x), b.0, b.1);
    &&& a.1.offset == b.1.offset
    &&& a.1.r_type == b.1.r_type
    &&& a.1.size == b.1.size
    &&& a.1.is_pcrel == b.1.is_pcrel
    &&& a.1.is_subtracted == b.1.is_subtracted
    &&& e.1 == f.1
    &&& same_edge(leaders, e.0, f.0)
}

/// True when two unwind records say the same.
pub open spec fn same_record(x: Inputs, a: UnwindRecord, b: UnwindRecord) -> bool {
    &&& a.input_offset == b.input_offset
    &&& a.code_len == b.code_len
    &&& a.encoding == b.encoding
    &&& a.personality == b.personality
    &&& a.fde == b.fde
    &&& match (a.lsda, b.lsda) {
        (Some(l), Some(m)) => crate::inputs::survivor(x.isecs@, l.0 as int)
            == crate::inputs::survivor(x.isecs@, m.0 as int) && l.1 == m.1,
        (None, None) => true,
        _ => false,
    }
}

/// True when two subsections are the same code once the classes were folded:
/// they have the same bytes and section flags, and their relocations and
/// unwind records are the same, one by one.
pub open spec fn same_code(x: Inputs, leaders: Seq<usize>, a: int, b: int) -> bool {
    let (s, t) = (x.isecs[a], x.isecs[b]);
    &&& s.data@ == t.data@
    &&& s.size == t.size
    &&& x.header(s).flags == x.header(t).flags
    &&& s.relocs.len() == t.relocs.len()
    &&& forall|k: int|
        0 <= k < s.relocs.len() ==> same_reloc(
            x,
            leaders,
            (s.obj, #[trigger] s.relocs[k]),
            (t.obj, t.relocs[k]),
        )
    &&& s.nunwind == t.nunwind
    &&& forall|k: int|
        0 <= k < s.nunwind ==> #[trigger] same_record_at(x, s, t, k)
}

/// True when the `k`th unwind records of two subsections say the same.
pub open spec fn same_record_at(x: Inputs, s: InputSection, t: InputSection, k: int) -> bool {
    same_record(
        x,
        x.unwind_records[s.unwind_offset + k],
        x.unwind_records[t.unwind_offset + k],
    )
}

/// The classes without the members that are not the same code as their
/// leader; each of those is a class of its own.
pub open spec fn compared(x: Inputs, leaders: Seq<usize>) -> Seq<usize> {
    let ids = candidate_ids(x);
    Seq::new(
        leaders.len(),
        |i: int|
            if same_code(x, leaders, ids[i] as int, ids[leaders[i] as int] as int) {
                leaders[i]
            } else {
                i as usize
            },
    )
}

/// How many of the first `n` candidates follow another one.
pub open spec fn followers(leaders: Seq<usize>, n: int) -> nat
    decreases n,
{
    if n <= 0 {
        0
    } else {
        followers(leaders, n - 1) + if leaders[n - 1] != n - 1 {
            1nat
        } else {
            0
        }
    }
}

/// The classes once comparing takes no member out of any. A member that
/// leaves its class can make those differ that refer to it.
#[verifier::opaque]
pub open spec fn settled(x: Inputs, leaders: Seq<usize>) -> Seq<usize>
    decreases followers(leaders, leaders.len() as int),
{
    let next = compared(x, leaders);
    if followers(next, next.len() as int) >= followers(leaders, leaders.len() as int) {
        leaders
    } else {
        settled(x, next)
    }
}

/// The candidate onto which each candidate is folded.
#[verifier::opaque]
pub open spec fn classes(x: Inputs) -> Seq<usize> {
    settled(x, all_leaders(final_digests(x)))
}

/// True when each member of a class is the same code as its leader.
#[verifier::opaque]
pub open spec fn all_same(x: Inputs, leaders: Seq<usize>) -> bool {
    let ids = candidate_ids(x);
    forall|i: int|
        0 <= i < leaders.len() && (#[trigger] leaders[i]) != i ==> same_code(
            x,
            leaders,
            ids[i] as int,
            ids[leaders[i] as int] as int,
        )
}

/// True when one list of leaders follows another, but for candidates that
/// lead themselves.
#[verifier::opaque]
pub open spec fn splits(whole: Seq<usize>, parts: Seq<usize>) -> bool {
    &&& parts.len() == whole.len()
    &&& forall|i: int| 0 <= i < parts.len() ==> #[trigger] parts[i] == whole[i] || parts[i] == i
}

/// True when candidates follow candidates that lead themselves.
pub open spec fn leads_ok(leaders: Seq<usize>) -> bool {
    forall|i: int|
        0 <= i < leaders.len() ==> (#[trigger] leaders[i]) <= i && leaders[leaders[i] as int]
            == leaders[i]
}

/// Comparing keeps members in their class or makes them lead themselves. If
/// it takes none out, no fewer follow than before.
proof fn lemma_compared(x: Inputs, leaders: Seq<usize>, n: int)
    requires
        leads_ok(leaders),
        0 <= n <= leaders.len(),
        leaders.len() <= usize::MAX,
    ensures
        leads_ok(compared(x, leaders)),
        forall|i: int|
            0 <= i < leaders.len() ==> (#[trigger] compared(x, leaders)[i]) == leaders[i]
                || compared(x, leaders)[i] == i,
        followers(compared(x, leaders), n) <= followers(leaders, n),
        followers(compared(x, leaders), n) == followers(leaders, n) ==> forall|i: int|
            0 <= i < n ==> #[trigger] compared(x, leaders)[i] == leaders[i],
    decreases n,
{
    let next = compared(x, leaders);
    assert forall|i: int| 0 <= i < next.len() implies (#[trigger] next[i]) <= i
        && next[next[i] as int] == next[i] by {
        let l = leaders[i] as int;
        assert(leaders[l] == l);
        assert(next[l] == l);
        assert(next[i] == leaders[i] || next[i] == i);
    }
    if n > 0 {
        lemma_compared(x, leaders, n - 1);
    }
}

/// What settling does: members stay in their class or lead themselves, and
/// those that stay are the same code as their leader.
proof fn lemma_settled(x: Inputs, leaders: Seq<usize>)
    requires
        leads_ok(leaders),
        leaders.len() == candidate_ids(x).len(),
        leaders.len() <= usize::MAX,
    ensures
        ({
            let r = settled(x, leaders);
            &&& r.len() == leaders.len()
            &&& leads_ok(r)
            &&& all_same(x, r)
            &&& splits(leaders, r)
        }),
    decreases followers(leaders, leaders.len() as int),
{
    reveal_with_fuel(settled, 2);
    let next = compared(x, leaders);
    lemma_compared(x, leaders, leaders.len() as int);
    if followers(next, next.len() as int) >= followers(leaders, leaders.len() as int) {
        assert(next =~= leaders);
        reveal(splits);
        assert(all_same(x, leaders)) by {
            reveal(all_same);
            let ids = candidate_ids(x);
            assert forall|i: int| 0 <= i < leaders.len() && (#[trigger] leaders[i])
                != i implies same_code(x, leaders, ids[i] as int, ids[leaders[i] as int] as int) by {
                assert(next[i] == leaders[i]);
            }
        }
    } else {
        lemma_settled(x, next);
        reveal(splits);
        let r = settled(x, next);
        assert forall|i: int| 0 <= i < r.len() implies #[trigger] r[i] == leaders[i] || r[i]
            == i by {
            assert(r[i] == next[i] || r[i] == i);
            assert(next[i] == leaders[i] || next[i] == i);
        }
    }
}

fn is_same_edge(leaders: &Vec<usize>, a: Edge, b: Edge) -> (r: bool)
    requires
        a matches Edge::Candidate(c) ==> c < leaders.len(),
        b matches Edge::Candidate(c) ==> c < leaders.len(),
    ensures
        r == same_edge(leaders@, a, b),
{
    match (a, b) {
        (Edge::Candidate(i), Edge::Candidate(j)) => leaders[i] == leaders[j],
        _ => a == b,
    }
}

fn is_same_reloc(
    x: &Inputs,
    t: &CandidateTable,
    leaders: &Vec<usize>,
    o: u32,
    a: &Reloc,
    p: u32,
    b: &Reloc,
) -> (r: bool)
    requires
        x.wf(),
        t.ok(*x),
        t.flags@ == candidates(*x),
        leaders.len() == lists::count_kept(t.flags@, t.flags.len() as int),
        o < x.objs.len(),
        p < x.objs.len(),
        x.reloc_ok(o, *a),
        x.reloc_ok(p, *b),
    ensures
        r == same_reloc(*x, leaders@, (o, *a), (p, *b)),
{
    let e: (Edge, u64) = find_edge(x, t, o, a);
    let f: (Edge, u64) = find_edge(x, t, p, b);
    a.offset == b.offset && a.r_type == b.r_type && a.size == b.size && a.is_pcrel == b.is_pcrel
        && a.is_subtracted == b.is_subtracted && e.1 == f.1 && is_same_edge(leaders, e.0, f.0)
}

fn is_same_record(x: &Inputs, a: &UnwindRecord, b: &UnwindRecord) -> (r: bool)
    requires
        x.wf(),
        x.record_ok(*a),
        x.record_ok(*b),
    ensures
        r == same_record(*x, *a, *b),
{
    proof {
        crate::inputs::lemma_wf_redirects(*x);
    }
    let lsda: bool = match (a.lsda, b.lsda) {
        (Some(l), Some(m)) => resolve_isec(&x.isecs, l.0) == resolve_isec(&x.isecs, m.0) && l.1
            == m.1,
        (None, None) => true,
        _ => false,
    };
    let personality: bool = match (a.personality, b.personality) {
        (Some(p), Some(q)) => p == q,
        (None, None) => true,
        _ => false,
    };
    let fde: bool = match (a.fde, b.fde) {
        (Some(p), Some(q)) => p == q,
        (None, None) => true,
        _ => false,
    };
    a.input_offset == b.input_offset && a.code_len == b.code_len && a.encoding == b.encoding
        && personality && fde && lsda
}

/// Compares two subsections.
fn is_same_code(x: &Inputs, t: &CandidateTable, leaders: &Vec<usize>, a: usize, b: usize) -> (r:
    bool)
    requires
        x.wf(),
        t.ok(*x),
        t.flags@ == candidates(*x),
        leaders.len() == lists::count_kept(t.flags@, t.flags.len() as int),
        a < x.isecs.len(),
        b < x.isecs.len(),
        x.isecs[a as int].is_alive,
        x.isecs[b as int].is_alive,
    ensures
        r == same_code(*x, leaders@, a as int, b as int),
{
    proof {
        assert(x.isec_ok(x.isecs[a as int]));
        assert(x.isec_ok(x.isecs[b as int]));
        assert(x.range_ok(a as int));
        assert(x.range_ok(b as int));
    }
    let s: &InputSection = &x.isecs[a];
    let u: &InputSection = &x.isecs[b];
    if s.size != u.size || x.hdr_of(a).flags != x.hdr_of(b).flags || s.relocs.len()
        != u.relocs.len() || s.nunwind != u.nunwind || !bytes::same(
        s.data.as_slice(),
        u.data.as_slice(),
    ) {
        return false;
    }
    let mut k: usize = 0;
    while k < s.relocs.len()
        invariant
            x.wf(),
            t.ok(*x),
            t.flags@ == candidates(*x),
            leaders.len() == lists::count_kept(t.flags@, t.flags.len() as int),
            *s == x.isecs[a as int],
            *u == x.isecs[b as int],
            x.isec_ok(*s),
            x.isec_ok(*u),
            k <= s.relocs.len(),
            s.relocs.len() == u.relocs.len(),
            forall|j: int|
                0 <= j < k ==> same_reloc(
                    *x,
                    leaders@,
                    (s.obj, #[trigger] s.relocs[j]),
                    (u.obj, u.relocs[j]),
                ),
        decreases s.relocs.len() - k,
    {
        proof {
            assert(x.reloc_ok(s.obj, s.relocs[k as int]));
            assert(x.reloc_ok(u.obj, u.relocs[k as int]));
        }
        if !is_same_reloc(x, t, leaders, s.obj, &s.relocs[k], u.obj, &u.relocs[k]) {
            proof {
                assert(!same_reloc(
                    *x,
                    leaders@,
                    (s.obj, s.relocs[k as int]),
                    (u.obj, u.relocs[k as int]),
                ));
            }
            return false;
        }
        k += 1;
    }
    let n: usize = s.nunwind as usize;
    let mut k: usize = 0;
    while k < n
        invariant
            x.wf(),
            a < x.isecs.len(),
            b < x.isecs.len(),
            *s == x.isecs[a as int],
            *u == x.isecs[b as int],
            s.is_alive,
            u.is_alive,
            x.range_ok(a as int),
            x.range_ok(b as int),
            n == s.nunwind,
            n == u.nunwind,
            k <= n,
            forall|j: int| 0 <= j < k ==> #[trigger] same_record_at(*x, *s, *u, j),
        decreases n - k,
    {
        proof {
            assert(x.record_ok(x.unwind_records[s.unwind_offset + k]));
            assert(x.record_ok(x.unwind_records[u.unwind_offset + k]));
        }
        if !is_same_record(
            x,
            &x.unwind_records[s.unwind_offset as usize + k],
            &x.unwind_records[u.unwind_offset as usize + k],
        ) {
            assert(!same_record_at(*x, *s, *u, k as int));
            return false;
        }
        assert(same_record_at(*x, *s, *u, k as int));
        k += 1;
    }
    true
}

/// True when the candidates are listed, and they are alive.
spec fn listed(x: Inputs, cands: Seq<usize>) -> bool {
    &&& cands == candidate_ids(x)
    &&& forall|i: int|
        0 <= i < cands.len() ==> (#[trigger] cands[i]) < x.isecs.len()
            && x.isecs[cands[i] as int].is_alive
}

/// Takes the members out of the classes that are not the same code as their
/// leader. Says whether there were any.
fn compare(x: &Inputs, t: &CandidateTable, cands: &Vec<usize>, leaders: &Vec<usize>) -> (r: (
    Vec<usize>,
    bool,
))
    requires
        x.wf(),
        t.ok(*x),
        t.flags@ == candidates(*x),
        listed(*x, cands@),
        cands.len() == lists::count_kept(t.flags@, t.flags.len() as int),
        leaders.len() == cands.len(),
        leads_ok(leaders@),
    ensures
        r.0@ == compared(*x, leaders@),
        r.1 == (followers(r.0@, r.0.len() as int) < followers(leaders@, leaders.len() as int)),
{
    let ghost want = compared(*x, leaders@);
    let mut next: Vec<usize> = Vec::new();
    let mut changed: bool = false;
    while next.len() < leaders.len()
        invariant
            x.wf(),
            t.ok(*x),
            t.flags@ == candidates(*x),
            listed(*x, cands@),
            cands.len() == lists::count_kept(t.flags@, t.flags.len() as int),
            leaders.len() == cands.len(),
            leads_ok(leaders@),
            want == compared(*x, leaders@),
            next.len() <= leaders.len(),
            forall|i: int| 0 <= i < next.len() ==> #[trigger] next[i] == want[i],
            changed == (followers(want, next.len() as int) < followers(
                leaders@,
                next.len() as int,
            )),
            followers(want, next.len() as int) <= followers(leaders@, next.len() as int),
        decreases leaders.len() - next.len(),
    {
        let i: usize = next.len();
        let l: usize = leaders[i];
        assert(l <= i);
        assert(x.isecs[cands[i as int] as int].is_alive);
        assert(x.isecs[cands[l as int] as int].is_alive);
        if is_same_code(x, t, leaders, cands[i], cands[l]) {
            next.push(l);
        } else {
            if l != i {
                changed = true;
            }
            next.push(i);
        }
    }
    assert(next@ =~= want);
    (next, changed)
}

/// Compares until all members are the same code as their leader.
fn settle(x: &Inputs, t: &CandidateTable, cands: &Vec<usize>, start: Vec<usize>) -> (r: Vec<usize>)
    requires
        x.wf(),
        t.ok(*x),
        t.flags@ == candidates(*x),
        listed(*x, cands@),
        cands.len() == lists::count_kept(t.flags@, t.flags.len() as int),
        start.len() == cands.len(),
        leads_ok(start@),
    ensures
        r@ == settled(*x, start@),
{
    let mut leaders: Vec<usize> = start;
    loop
        invariant
            x.wf(),
            t.ok(*x),
            t.flags@ == candidates(*x),
            listed(*x, cands@),
            cands.len() == lists::count_kept(t.flags@, t.flags.len() as int),
            leaders.len() == cands.len(),
            leads_ok(leaders@),
            settled(*x, leaders@) == settled(*x, start@),
        decreases followers(leaders@, leaders.len() as int),
    {
        let (next, changed) = compare(x, t, cands, &leaders);
        proof {
            reveal_with_fuel(settled, 2);
            lemma_compared(*x, leaders@, leaders.len() as int);
        }
        if !changed {
            return leaders;
        }
        leaders = next;
    }
}

/// True when folding `id` onto `to` joins the same code: both are
/// candidates, `to` comes first and is not folded itself, and their bytes,
/// section flags, relocations and unwind records are the same, where
/// relocations to folded code count as relocations to what it is folded
/// onto.
pub open spec fn may_fold(x: Inputs, id: int, to: int) -> bool {
    &&& 0 <= to < id
    &&& candidate(x, id)
    &&& candidate(x, to)
    &&& same_code(x, classes(x), id, to)
}

/// Folds candidates that are the same code onto the first of each class.
pub fn icf_sections(x: &mut Inputs)
    requires
        old(x).wf(),
    ensures
        final(x).isecs@ == folded(
            old(x).isecs@,
            candidate_ids(*old(x)),
            classes(*old(x)),
            candidate_ids(*old(x)).len() as int,
        ),
        forall|id: int|
            0 <= id < old(x).isecs.len() && (#[trigger] final(x).isecs[id]).replacement != old(
                x,
            ).isecs[id].replacement ==> {
                let to = final(x).isecs[id].replacement;
                &&& may_fold(*old(x), id, to as int)
                &&& final(x).isecs[to as int].replacement == NO_REPLACEMENT
                &&& old(x).isecs[id].p2align <= final(x).isecs[to as int].p2align
            },
        final(x).wf(),
        final(x).objs == old(x).objs,
        final(x).symtab == old(x).symtab,
        final(x).synthetic_hdrs == old(x).synthetic_hdrs,
        final(x).unwind_records == old(x).unwind_records,
        final(x).cies == old(x).cies,
        final(x).fdes == old(x).fdes,
{
    let flags: Vec<bool> = find_candidates(x);
    let ranks: Vec<usize> = lists::count_all(&flags);
    let t = CandidateTable { flags, ranks };
    let ghost n = x.isecs.len() as int;
    let mut cands: Vec<usize> = Vec::new();
    while cands.len() < x.isecs.len()
        invariant
            cands.len() <= x.isecs.len(),
            cands@ =~= ids(cands.len() as int),
        decreases x.isecs.len() - cands.len(),
    {
        let i: usize = cands.len();
        cands.push(i);
    }
    lists::retain(&mut cands, &t.flags);
    proof {
        lists::lemma_kept(ids(n), t.flags@, n);
        lemma_kept_flagged(t.flags@, n);
    }
    let mut base: Vec<Digest> = Vec::new();
    let mut edges: Vec<Vec<usize>> = Vec::new();
    while base.len() < cands.len()
        invariant
            x.wf(),
            t.ok(*x),
            t.flags@ == candidates(*x),
            base.len() == edges.len(),
            base.len() <= cands.len(),
            cands.len() == lists::count_kept(t.flags@, t.flags.len() as int),
            forall|i: int|
                0 <= i < cands.len() ==> (#[trigger] cands[i]) < x.isecs.len()
                    && t.flags[cands[i] as int],
            forall|i: int|
                0 <= i < base.len() ==> #[trigger] base[i] == base_digests(
                    *x,
                    t.flags@,
                    cands@,
                )[i],
            forall|i: int|
                0 <= i < edges.len() ==> (#[trigger] edges[i])@ == candidate_edges(
                    *x,
                    t.flags@,
                    cands@,
                )[i],
            forall|i: int, k: int|
                0 <= i < edges.len() && 0 <= k < edges[i].len() ==> (#[trigger] edges[i]@[k])
                    < cands.len(),
        decreases cands.len() - base.len(),
    {
        let id: usize = cands[base.len()];
        assert(candidate(*x, id as int));
        base.push(base_digest(x, &t, id));
        edges.push(list_neighbours(x, &t, id));
    }
    assert(base@ =~= base_digests(*x, t.flags@, cands@));
    assert(crate::util::graph::lists(edges@) =~= candidate_edges(*x, t.flags@, cands@));
    proof {
        let ev = crate::util::graph::lists(edges@);
        assert forall|i: int, k: int|
            0 <= i < ev.len() && 0 <= k < ev[i].len() implies #[trigger] ev[i][k]
            < base.len() by {
            assert(ev[i] == edges[i]@);
            assert(edges[i]@[k] < cands.len());
        }
    }
    let leaders: Vec<usize> = refine(base, &edges);
    proof {
        lemma_refined_len(
            base_digests(*x, t.flags@, cands@),
            candidate_edges(*x, t.flags@, cands@),
            0,
        );
    }
    assert(leaders@ =~= all_leaders(final_digests(*x))) by {
        reveal(all_leaders);
        reveal(final_digests);
    }
    proof {
        lemma_leaders_ok(*x);
        assert forall|i: int| 0 <= i < cands.len() implies (#[trigger] cands[i]) < x.isecs.len()
            && x.isecs[cands[i] as int].is_alive by {
            assert(t.flags[cands[i] as int]);
            assert(candidate(*x, cands[i] as int));
        }
    }
    let leads: Vec<usize> = settle(x, &t, &cands, leaders);
    let ghost before = *x;
    proof {
        reveal(classes);
        lemma_classes_ok(before);
    }
    fold(&mut x.isecs, &cands, &leads);
    proof {
        lemma_fold_wf(before, *x, cands@, leads@);
        assert forall|id: int|
            0 <= id < before.isecs.len() && (#[trigger] x.isecs[id]).replacement
                != before.isecs[id].replacement implies {
            let to = x.isecs[id].replacement;
            &&& may_fold(before, id, to as int)
            &&& x.isecs[to as int].replacement == NO_REPLACEMENT
            &&& before.isecs[id].p2align <= x.isecs[to as int].p2align
        } by {
            lemma_only_same_code(before, id);
        }
    }
}

proof fn lemma_fold_wf(before: Inputs, x: Inputs, cands: Seq<usize>, leaders: Seq<usize>)
    requires
        before.wf(),
        classes_ok(cands, leaders, before.isecs.len() as int),
        x.isecs@ == folded(before.isecs@, cands, leaders, cands.len() as int),
        x.objs == before.objs,
        x.symtab == before.symtab,
        x.synthetic_hdrs == before.synthetic_hdrs,
        x.unwind_records == before.unwind_records,
        x.cies == before.cies,
        x.fdes == before.fdes,
    ensures
        x.wf(),
{
    lemma_folded(before.isecs@, cands, leaders, cands.len() as int);
    assert forall|i: int| 0 <= i < x.isecs.len() implies x.isec_ok(#[trigger] x.isecs[i])
        && x.range_ok(i) by {
        assert(before.isec_ok(before.isecs[i]));
        assert(before.range_ok(i));
        let s = x.isecs[i];
        assert(fold_kept(before.isecs@[i], x.isecs@[i]));
        assert forall|k: int| 0 <= k < s.relocs.len() implies x.reloc_ok(
            s.obj,
            #[trigger] s.relocs[k],
        ) by {
            assert(before.reloc_ok(s.obj, before.isecs[i].relocs[k]));
        }
        if cands.contains(i as usize) {
            let k = choose|k: int| 0 <= k < cands.len() && cands[k] == i as usize;
            let lead = cands[leaders[k] as int];
            assert(cands[k] == i);
            assert(lead < before.isecs.len());
            assert(x.isecs@[cands[k] as int].replacement == before.isecs@[i].replacement
                || x.isecs@[cands[k] as int].replacement == lead);
        } else {
            assert(x.isecs@[i] == before.isecs@[i]);
        }
    }
    assert forall|i: int| 0 <= i < x.isecs.len() implies #[trigger] x.range_ok(i) by {
        assert(x.isec_ok(x.isecs[i]));
    }
    assert forall|i: int| 0 <= i < x.objs.len() implies x.obj_ok(#[trigger] x.objs[i]) by {
        assert(before.obj_ok(before.objs[i]));
    }
    assert forall|i: int| 0 <= i < x.fdes.len() implies x.fde_ok(#[trigger] x.fdes[i]) by {
        assert(before.fde_ok(before.fdes[i]));
    }
    assert forall|i: int| 0 <= i < x.unwind_records.len() implies x.record_ok(
        #[trigger] x.unwind_records[i],
    ) by {
        assert(before.record_ok(before.unwind_records[i]));
    }
    assert forall|i: int| 0 <= i < x.cies.len() implies x.cie_ok(#[trigger] x.cies[i]) by {
        assert(before.cie_ok(before.cies[i]));
    }
    assert forall|i: int| 0 <= i < x.symtab.syms.len() implies x.sym_ok(
        #[trigger] x.symtab.syms[i],
    ) by {
        assert(before.sym_ok(before.symtab.syms[i]));
    }
}

proof fn lemma_refined_len(d: Seq<Digest>, edges: Seq<Seq<usize>>, classes: int)
    ensures
        refined(d, edges, classes).len() == d.len(),
    decreases d.len() - classes,
{
    let next = thrice(d, edges);
    let n = class_count(next, next.len() as int);
    if n <= classes || n > d.len() {
    } else {
        lemma_refined_len(next, edges, n);
    }
}

/// Each kept id is marked, and the ids increase.
proof fn lemma_kept_flagged(flags: Seq<bool>, n: int)
    requires
        0 <= n <= flags.len(),
        n <= usize::MAX,
    ensures
        forall|i: int|
            0 <= i < lists::kept_to(ids(n), flags, n).len() ==> (#[trigger] lists::kept_to(
                ids(n),
                flags,
                n,
            )[i]) < n && flags[lists::kept_to(ids(n), flags, n)[i] as int],
{
    lemma_kept_flagged_to(flags, n, n);
}

proof fn lemma_kept_flagged_to(flags: Seq<bool>, all: int, n: int)
    requires
        0 <= n <= all <= flags.len(),
        all <= usize::MAX,
    ensures
        forall|i: int|
            0 <= i < lists::kept_to(ids(all), flags, n).len() ==> (#[trigger] lists::kept_to(
                ids(all),
                flags,
                n,
            )[i]) < n && flags[lists::kept_to(ids(all), flags, n)[i] as int],
        forall|i: int, j: int|
            0 <= i < j < lists::kept_to(ids(all), flags, n).len() ==> (#[trigger] lists::kept_to(
                ids(all),
                flags,
                n,
            )[i]) < (#[trigger] lists::kept_to(ids(all), flags, n)[j]),
    decreases n,
{
    if n > 0 {
        lemma_kept_flagged_to(flags, all, n - 1);
        let before = lists::kept_to(ids(all), flags, n - 1);
        let after = lists::kept_to(ids(all), flags, n);
        assert forall|i: int| 0 <= i < after.len() implies (#[trigger] after[i]) < n
            && flags[after[i] as int] by {
            if i < before.len() {
                assert(after[i] == before[i]);
            }
        }
        assert forall|i: int, j: int| 0 <= i < j < after.len() implies (#[trigger] after[i]) < (
        #[trigger] after[j]) by {
            assert(after[i] == before[i]);
            if j < before.len() {
                assert(after[j] == before[j]);
            }
        }
    }
}

/// True when candidates are listed in increasing order and their leaders
/// lead themselves.
pub open spec fn classes_ok(cands: Seq<usize>, leaders: Seq<usize>, n: int) -> bool {
    &&& leaders.len() == cands.len()
    &&& forall|i: int| 0 <= i < cands.len() ==> (#[trigger] cands[i]) < n
    &&& forall|i: int, j: int|
        0 <= i < j < cands.len() ==> (#[trigger] cands[i]) < (#[trigger] cands[j])
    &&& leads_ok(leaders)
}

/// What folding does to a subsection: it touches no field but the redirect
/// and the alignment.
pub open spec fn fold_kept(a: InputSection, b: InputSection) -> bool {
    b == (InputSection { replacement: b.replacement, p2align: b.p2align, ..a })
}

/// Folding redirects every candidate but the leaders to the first member of
/// its class, gives the leader an alignment that suits every member, and
/// changes nothing else.
#[verifier::rlimit(50)]
pub proof fn lemma_folded(
    isecs: Seq<InputSection>,
    cands: Seq<usize>,
    leaders: Seq<usize>,
    n: int,
)
    requires
        classes_ok(cands, leaders, isecs.len() as int),
        isecs.len() < u32::MAX,
        0 <= n <= cands.len(),
    ensures
        ({
            let after = folded(isecs, cands, leaders, n);
            &&& after.len() == isecs.len()
            &&& forall|id: int|
                0 <= id < isecs.len() ==> fold_kept(isecs[id], #[trigger] after[id])
                    && isecs[id].p2align <= after[id].p2align
            &&& forall|i: int|
                0 <= i < n ==> {
                    let s = after[#[trigger] cands[i] as int];
                    let lead = cands[leaders[i] as int];
                    &&& leaders[i] == i ==> s.replacement == isecs[cands[i] as int].replacement
                    &&& leaders[i] != i ==> s.replacement == lead
                    &&& isecs[cands[i] as int].p2align <= after[lead as int].p2align
                }
            &&& forall|i: int|
                n <= i < cands.len() ==> (#[trigger] after[cands[i] as int]).replacement
                    == isecs[cands[i] as int].replacement
            &&& forall|id: int|
                0 <= id < isecs.len() && !cands.contains(id as usize) ==> #[trigger] after[id]
                    == isecs[id]
        }),
    decreases n,
{
    if n > 0 {
        lemma_folded(isecs, cands, leaders, n - 1);
        let before = folded(isecs, cands, leaders, n - 1);
        let after = folded(isecs, cands, leaders, n);
        let id = cands[n - 1] as int;
        let l = leaders[n - 1] as int;
        let lead = cands[l] as int;
        assert(cands.contains(cands[n - 1]));
        assert(cands.contains(cands[l]));
        if l != n - 1 {
            assert(lead < id);
            assert(before[lead].replacement == isecs[lead].replacement);
        }
        assert forall|k: int| 0 <= k < isecs.len() implies fold_kept(isecs[k], #[trigger] after[k])
            && isecs[k].p2align <= after[k].p2align && before[k].p2align <= after[k].p2align by {
            assert(fold_kept(isecs[k], before[k]));
        }
        assert forall|i: int| 0 <= i < n implies {
            let s = after[#[trigger] cands[i] as int];
            let to = cands[leaders[i] as int];
            &&& leaders[i] == i ==> s.replacement == isecs[cands[i] as int].replacement
            &&& leaders[i] != i ==> s.replacement == to
            &&& isecs[cands[i] as int].p2align <= after[to as int].p2align
        } by {
            let to = cands[leaders[i] as int] as int;
            if i < n - 1 {
                assert(cands[i] < cands[n - 1]);
                assert(before[cands[i] as int].replacement == after[cands[i] as int].replacement);
                assert(before[to].p2align <= after[to].p2align);
            } else {
                assert(before[id].p2align >= isecs[id].p2align);
                assert(before[cands[i] as int].replacement == isecs[cands[i] as int].replacement);
                assert(after[lead].p2align >= isecs[id].p2align);
            }
        }
        assert forall|i: int| n <= i < cands.len() implies (
        #[trigger] after[cands[i] as int]).replacement == isecs[cands[i] as int].replacement by {
            assert(cands[n - 1] < cands[i]);
            assert(before[cands[i] as int].replacement == isecs[cands[i] as int].replacement);
        }
    }
}

/// The candidates and the classes are listed as folding wants them.
pub proof fn lemma_classes_ok(x: Inputs)
    requires
        x.wf(),
    ensures
        classes_ok(candidate_ids(x), classes(x), x.isecs.len() as int),
        all_same(x, classes(x)),
        splits(all_leaders(final_digests(x)), classes(x)),
        forall|i: int|
            0 <= i < candidate_ids(x).len() ==> candidate(
                x,
                (#[trigger] candidate_ids(x)[i]) as int,
            ),
{
    reveal(classes);
    let l = all_leaders(final_digests(x));
    lemma_leaders_ok(x);
    lemma_settled(x, l);
    lemma_listed(x);
}

/// The candidates are what the list holds.
proof fn lemma_listed(x: Inputs)
    requires
        x.isecs.len() <= usize::MAX,
    ensures
        forall|i: int|
            0 <= i < candidate_ids(x).len() ==> candidate(
                x,
                (#[trigger] candidate_ids(x)[i]) as int,
            ),
{
    let n = x.isecs.len() as int;
    let ids = candidate_ids(x);
    lemma_kept_flagged_to(candidates(x), n, n);
    assert forall|i: int| 0 <= i < ids.len() implies candidate(x, (#[trigger] ids[i]) as int) by {
        assert(candidates(x)[ids[i] as int]);
    }
}

/// Only the same code is folded: a subsection that gets a replacement was a
/// candidate, as was its replacement, which comes first, is not replaced
/// itself, is aligned at least as strictly, and has the same bytes, section
/// flags, relocations and unwind records.
pub proof fn lemma_only_same_code(x: Inputs, id: int)
    requires
        x.wf(),
        0 <= id < x.isecs.len(),
        folded(x.isecs@, candidate_ids(x), classes(x), candidate_ids(x).len() as int)[id].replacement
            != x.isecs[id].replacement,
    ensures
        ({
            let after = folded(
                x.isecs@,
                candidate_ids(x),
                classes(x),
                candidate_ids(x).len() as int,
            );
            let to = after[id].replacement as int;
            &&& may_fold(x, id, to)
            &&& after[to].replacement == NO_REPLACEMENT
            &&& x.isecs[id].p2align <= after[to].p2align
        }),
{
    let ids = candidate_ids(x);
    let c = classes(x);
    lemma_classes_ok(x);
    lemma_folded(x.isecs@, ids, c, ids.len() as int);
    let after = folded(x.isecs@, ids, c, ids.len() as int);
    assert(ids.contains(id as usize));
    let i = choose|i: int| 0 <= i < ids.len() && ids[i] == id as usize;
    assert(after[ids[i] as int].replacement == ids[c[i] as int]);
    let l = c[i] as int;
    assert(c[l] == l);
    assert(ids[l] < ids[i]);
    assert(after[ids[l] as int].replacement == x.isecs[ids[l] as int].replacement);
    assert(candidate(x, ids[l] as int));
    assert(candidate(x, ids[i] as int));
    assert(same_code(x, c, ids[i] as int, ids[l] as int)) by {
        reveal(all_same);
    }
}

/// The candidates and the leaders by digest are listed as folding wants
/// them.
proof fn lemma_leaders_ok(x: Inputs)
    requires
        x.wf(),
    ensures
        classes_ok(candidate_ids(x), all_leaders(final_digests(x)), x.isecs.len() as int),
        candidate_ids(x).len() <= x.isecs.len(),
{
    let n = x.isecs.len() as int;
    let flags = candidates(x);
    let cands = candidate_ids(x);
    let d = final_digests(x);
    reveal(final_digests);
    lists::lemma_kept(ids(n), flags, n);
    lemma_kept_flagged_to(flags, n, n);
    lemma_refined_len(base_digests(x, flags, cands), candidate_edges(x, flags, cands), 0);
    assert(ids(n).len() == n);
    if n > 0 {
        lists::lemma_count_kept(flags, 0);
    }
    reveal(all_leaders);
    let leaders = all_leaders(d);
    assert forall|i: int| 0 <= i < leaders.len() implies (#[trigger] leaders[i]) <= i
        && leaders[leaders[i] as int] == leaders[i] by {
        lemma_first_bound(d, d[i], 0, i);
        let l = leader_of(d, i);
        assert(d[l] == d[i]);
        assert(leaders[l] == leader_of(d, l));
    }
}

proof fn lemma_first_bound(d: Seq<Digest>, v: Digest, from: int, at: int)
    requires
        0 <= from <= at < d.len(),
        d[at] == v,
    ensures
        from <= first_with(d, v, from) <= at,
        d[first_with(d, v, from)] == v,
    decreases at - from,
{
    if d[from] != v {
        lemma_first_bound(d, v, from + 1, at);
    }
}

/// Two candidates share one copy after folding only if their digests agree.
/// If those that agree with the first of their digest are the same code as
/// it, then those share a copy that have the same digest.
pub proof fn lemma_same_class(x: Inputs, i: int, j: int)
    requires
        x.wf(),
        0 <= i < candidate_ids(x).len(),
        0 <= j < candidate_ids(x).len(),
    ensures
        classes(x)[i] == classes(x)[j] ==> final_digests(x)[i] == final_digests(x)[j],
        compared(x, all_leaders(final_digests(x))) == all_leaders(final_digests(x)) ==> (classes(
            x,
        )[i] == classes(x)[j]) == (final_digests(x)[i] == final_digests(x)[j]),
{
    let d = final_digests(x);
    let l = all_leaders(d);
    let c = classes(x);
    assert(l.len() == d.len() && d.len() == candidate_ids(x).len()) by {
        lemma_leaders_ok(x);
        reveal(all_leaders);
    }
    lemma_first_bound(d, d[i], 0, i);
    lemma_first_bound(d, d[j], 0, j);
    assert(l[i] == leader_of(d, i) && l[j] == leader_of(d, j)) by {
        lemma_leaders_ok(x);
        reveal(all_leaders);
    }
    assert((c[i] == l[i] || c[i] == i) && (c[j] == l[j] || c[j] == j)) by {
        lemma_classes_ok(x);
        reveal(splits);
    }
    if compared(x, l) == l {
        assert(c == l) by {
            reveal(classes);
            reveal_with_fuel(settled, 2);
        }
    }
}

} // verus!
