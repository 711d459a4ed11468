//! What folded code has in common with what stands in for it.
use super::icf::{
    candidate, candidate_ids, candidates, classes, defined_in, defines_in, edge_of, folded,
    lemma_only_same_code, obj_defines_in, same_reloc,
};
use crate::input_sections::{InputSection, Reloc, RelocTarget};
use crate::inputs::Inputs;
use crate::util::bytes;
use vstd::prelude::*;
use vstd::string::*;

verus! {

/// The subsections after folding.
pub open spec fn after_folding(x: Inputs) -> Seq<InputSection> {
    folded(x.isecs@, candidate_ids(x), classes(x), candidate_ids(x).len() as int)
}

proof fn lemma_obj_defines(x: Inputs, o: int, n: int, k: int, id: int, weak: bool)
    requires
        0 <= k < n,
        defines_in(x, o, k, id, weak),
    ensures
        obj_defines_in(x, o, n, id, weak),
    decreases n,
{
    if k < n - 1 {
        lemma_obj_defines(x, o, n - 1, k, id, weak);
    }
}

proof fn lemma_defined(x: Inputs, n: int, o: int, k: int, id: int, weak: bool)
    requires
        0 <= o < n,
        0 <= k < x.objs[o].nlists.len(),
        defines_in(x, o, k, id, weak),
    ensures
        defined_in(x, n, id, weak),
    decreases n,
{
    lemma_obj_defines(x, o, x.objs[o].nlists.len() as int, k, id, weak);
    if o < n - 1 {
        lemma_defined(x, n - 1, o, k, id, weak);
    }
}

/// Code that is folded is live code, and so is its stand-in, which comes
/// first, holds the same bytes and has the same section attributes. Neither
/// must be kept as it is.
pub proof fn lemma_folded_bytes(x: Inputs, id: int)
    requires
        x.wf(),
        0 <= id < x.isecs.len(),
        after_folding(x)[id].replacement != x.isecs[id].replacement,
    ensures
        ({
            let to = after_folding(x)[id].replacement as int;
            let (s, t) = (x.isecs[id], x.isecs[to]);
            &&& 0 <= to < id
            &&& s.is_alive && t.is_alive
            &&& s.data@ == t.data@ && s.size == t.size
            &&& x.header(s).segname == "__TEXT".spec_bytes()
            &&& x.header(t).segname == "__TEXT".spec_bytes()
            &&& x.header(s).flags == x.header(t).flags
            &&& x.header(s).flags & 0x8000_0000 != 0
            &&& x.header(s).flags & 0x1000_0000 == 0
            &&& x.header(s).flags & 0x0800_0000 == 0
            &&& s.p2align <= after_folding(x)[to].p2align
            &&& s.relocs.len() == t.relocs.len()
            &&& s.nunwind == t.nunwind
        }),
{
    lemma_only_same_code(x, id);
}

/// No strong definition that other files see lies in code that is folded,
/// nor in its stand-in.
pub proof fn lemma_strong_code_kept(x: Inputs, id: int, o: int, k: int)
    requires
        x.wf(),
        0 <= id < x.isecs.len(),
        after_folding(x)[id].replacement != x.isecs[id].replacement,
        0 <= o < x.objs.len(),
        0 <= k < x.objs[o].nlists.len(),
        x.objs[o].nlists[k].n_type & 0xe0 == 0,
        x.objs[o].nlists[k].n_type & 0x0e == 0x0e,
        x.objs[o].nlists[k].n_type & 0x01 != 0,
        x.objs[o].nlists[k].n_desc & 0x80 == 0,
    ensures
        ({
            let home = x.symtab.syms[x.objs[o].syms[k] as int].section();
            &&& home != Some(id as u32)
            &&& home != Some(after_folding(x)[id].replacement)
        }),
{
    lemma_only_same_code(x, id);
    let to = after_folding(x)[id].replacement as int;
    let home = x.symtab.syms[x.objs[o].syms[k] as int].section();
    if home == Some(id as u32) {
        lemma_defined(x, x.objs.len() as int, o, k, id, false);
        assert(!candidate(x, id));
    }
    if home == Some(to as u32) {
        lemma_defined(x, x.objs.len() as int, o, k, to, false);
        assert(!candidate(x, to));
    }
}

/// The symbol that a relocation of an object names, if it names one.
pub open spec fn symbol_in(x: Inputs, obj: u32, rel: Reloc) -> Option<u32> {
    match rel.refers_to() {
        RelocTarget::Sym(i) => Some(x.objs[obj as int].syms[i as int]),
        RelocTarget::Section(_) => None,
    }
}

/// The relocations of folded code and of its stand-in are about the same
/// fields, and those of symbols that no object defines are of the same
/// symbols, with the same addends.
pub proof fn lemma_folded_relocs(x: Inputs, id: int, k: int)
    requires
        x.wf(),
        0 <= id < x.isecs.len(),
        after_folding(x)[id].replacement != x.isecs[id].replacement,
        0 <= k < x.isecs[id].relocs.len(),
    ensures
        ({
            let to = after_folding(x)[id].replacement as int;
            let (s, t) = (x.isecs[id], x.isecs[to]);
            let (a, b) = (s.relocs[k], t.relocs[k]);
            &&& a.offset == b.offset
            &&& a.r_type == b.r_type
            &&& a.size == b.size
            &&& a.is_pcrel == b.is_pcrel
            &&& a.is_subtracted == b.is_subtracted
            &&& symbol_in(x, s.obj, a) matches Some(sym)
                ==> x.symtab.syms[sym as int].defined_by() !is Obj ==> a.addend == b.addend
                && symbol_in(x, t.obj, b) == Some(sym)
        }),
{
    lemma_only_same_code(x, id);
    let to = after_folding(x)[id].replacement as int;
    let (s, t) = (x.isecs[id], x.isecs[to]);
    let (a, b) = (s.relocs[k], t.relocs[k]);
    assert(same_reloc(x, classes(x), (s.obj, a), (t.obj, b)));
    let e = edge_of(x, candidates(x), s.obj, a);
    let f = edge_of(x, candidates(x), t.obj, b);
    assert(bytes::word64(a.addend as int) == bytes::word64(b.addend as int) ==> a.addend
        == b.addend) by {
        reveal(bytes::word64);
    }
    assert(e.1 == f.1);
}

} // verus!
