//! What all input files together bring into the link.
use crate::input_files::{Cie, Fde, ObjectFile, UnwindRecord};
use crate::input_sections::{InputSection, Reloc, RelocTarget, NO_REPLACEMENT, UNSET};
use crate::macho::{MachSection, SectionView};
use crate::symbol::{Symbol, SymbolTable};
use vstd::prelude::*;

verus! {

/// The contents of all objects, in shared arenas.
#[derive(Debug)]
pub struct Inputs {
    pub objs: Vec<ObjectFile>,
    pub symtab: SymbolTable,
    /// All input sections, in one arena.
    pub isecs: Vec<InputSection>,
    /// Headers of the input sections that no object brought, indexed by
    /// their `shndx`.
    pub synthetic_hdrs: Vec<MachSection>,
    /// Unwind records from all objects' __compact_unwind sections.
    pub unwind_records: Vec<UnwindRecord>,
    /// DWARF CIEs and FDEs from all objects' __eh_frame sections.
    pub cies: Vec<Cie>,
    pub fdes: Vec<Fde>,
}

/// Follows at most `fuel` redirects from a subsection.
pub open spec fn follow(isecs: Seq<InputSection>, id: int, fuel: nat) -> int
    decreases fuel,
{
    if fuel == 0 || isecs[id].replacement == NO_REPLACEMENT {
        id
    } else {
        follow(isecs, isecs[id].replacement as int, (fuel - 1) as nat)
    }
}

/// The subsection that stands for `id` after copies were merged.
pub open spec fn survivor(isecs: Seq<InputSection>, id: int) -> int {
    follow(isecs, id, isecs.len())
}

/// True when every redirect leads to an existing subsection.
pub open spec fn redirects_exist(isecs: Seq<InputSection>) -> bool {
    forall|i: int|
        0 <= i < isecs.len() ==> (#[trigger] isecs[i]).replacement == NO_REPLACEMENT
            || isecs[i].replacement < isecs.len()
}

/// Following redirects stays among the subsections.
pub proof fn lemma_follow_exists(isecs: Seq<InputSection>, id: int, fuel: nat)
    requires
        redirects_exist(isecs),
        0 <= id < isecs.len(),
    ensures
        0 <= follow(isecs, id, fuel) < isecs.len(),
    decreases fuel,
{
    if fuel > 0 && isecs[id].replacement != NO_REPLACEMENT {
        lemma_follow_exists(isecs, isecs[id].replacement as int, (fuel - 1) as nat);
    }
}

/// Follows redirects to the surviving subsection.
pub fn resolve_isec(isecs: &Vec<InputSection>, id: usize) -> (r: usize)
    requires
        redirects_exist(isecs@),
        id < isecs.len(),
    ensures
        r == survivor(isecs@, id as int),
        r < isecs.len(),
{
    let mut at: usize = id;
    let mut fuel: usize = isecs.len();
    while fuel > 0 && isecs[at].replacement != NO_REPLACEMENT
        invariant
            redirects_exist(isecs@),
            at < isecs.len(),
            follow(isecs@, at as int, fuel as nat) == survivor(isecs@, id as int),
        decreases fuel,
    {
        at = isecs[at].replacement as usize;
        fuel -= 1;
    }
    at
}

/// Lists the survivor of each subsection.
pub fn list_survivors(isecs: &Vec<InputSection>) -> (r: Vec<usize>)
    requires
        redirects_exist(isecs@),
    ensures
        r.len() == isecs.len(),
        forall|i: int|
            0 <= i < r.len() ==> #[trigger] r[i] == survivor(isecs@, i) && r[i] < isecs.len(),
{
    let mut r: Vec<usize> = Vec::new();
    while r.len() < isecs.len()
        invariant
            redirects_exist(isecs@),
            r.len() <= isecs.len(),
            forall|i: int|
                0 <= i < r.len() ==> #[trigger] r[i] == survivor(isecs@, i) && r[i] < isecs.len(),
        decreases isecs.len() - r.len(),
    {
        let s: usize = resolve_isec(isecs, r.len());
        r.push(s);
    }
    r
}

impl Inputs {
    /// True when a relocation of an object's subsection has a target.
    pub open spec fn reloc_ok(self, obj: u32, rel: Reloc) -> bool {
        match rel.refers_to() {
            RelocTarget::Sym(i) => i < self.objs[obj as int].syms.len(),
            RelocTarget::Section(i) => i < self.isecs.len(),
        }
    }

    /// True when a subsection refers to what exists.
    pub open spec fn isec_ok(self, s: InputSection) -> bool {
        &&& s.obj == UNSET ==> s.shndx < self.synthetic_hdrs.len() && s.relocs.len() == 0
        &&& s.obj != UNSET ==> s.obj < self.objs.len() && s.shndx
            < self.objs[s.obj as int].sect_hdrs.len()
        &&& forall|k: int|
            0 <= k < s.relocs.len() ==> self.reloc_ok(s.obj, #[trigger] s.relocs[k])
        &&& s.replacement == NO_REPLACEMENT || s.replacement < self.isecs.len()
    }

    /// True when a live subsection's range of unwind records holds its own
    /// records.
    pub open spec fn range_ok(self, i: int) -> bool {
        let s = self.isecs[i];
        s.is_alive && s.nunwind > 0 ==> s.unwind_offset + s.nunwind <= self.unwind_records.len()
            && forall|k: int|
            s.unwind_offset <= k < s.unwind_offset + s.nunwind ==> (
            #[trigger] self.unwind_records[k]).isec == i
    }

    /// True when an unwind record refers to what exists.
    pub open spec fn record_ok(self, r: UnwindRecord) -> bool {
        &&& r.isec < self.isecs.len()
        &&& r.lsda matches Some(l) ==> l.0 < self.isecs.len()
        &&& r.personality matches Some(p) ==> p < self.symtab.syms.len()
    }

    /// True when unwind records refer to existing FDEs.
    pub open spec fn fdes_exist(self) -> bool {
        forall|i: int|
            0 <= i < self.unwind_records.len() ==> ((#[trigger] self.unwind_records[i]).fde
                matches Some(f) ==> f < self.fdes.len())
    }

    /// True when an FDE refers to what exists.
    pub open spec fn fde_ok(self, f: Fde) -> bool {
        &&& f.isec < self.isecs.len()
        &&& f.cie < self.cies.len()
        &&& f.lsda matches Some(l) ==> l.0 < self.isecs.len()
    }

    /// True when a CIE refers to what exists.
    pub open spec fn cie_ok(self, c: Cie) -> bool {
        c.personality matches Some(p) ==> p < self.symtab.syms.len()
    }

    /// True when a symbol refers to what exists.
    pub open spec fn sym_ok(self, s: Symbol) -> bool {
        s.section() matches Some(i) ==> i < self.isecs.len()
    }

    /// True when an object refers to what exists.
    pub open spec fn obj_ok(self, o: ObjectFile) -> bool {
        &&& o.nlists.len() == o.syms.len()
        &&& forall|k: int|
            0 <= k < o.syms.len() ==> (#[trigger] o.syms[k]) < self.symtab.syms.len()
        &&& forall|k: int| 0 <= k < o.subsecs.len() ==> (#[trigger] o.subsecs[k]) < self.isecs.len()
    }

    /// True when everything refers to what exists.
    pub open spec fn wf(self) -> bool {
        &&& self.isecs.len() < NO_REPLACEMENT
        &&& self.objs.len() < UNSET
        &&& self.symtab.syms.len() < UNSET
        &&& self.unwind_records.len() < UNSET
        &&& self.fdes.len() < UNSET
        &&& forall|i: int| 0 <= i < self.objs.len() ==> self.obj_ok(#[trigger] self.objs[i])
        &&& forall|i: int| 0 <= i < self.isecs.len() ==> self.isec_ok(#[trigger] self.isecs[i])
        &&& forall|i: int| 0 <= i < self.isecs.len() ==> #[trigger] self.range_ok(i)
        &&& forall|i: int|
            0 <= i < self.unwind_records.len() ==> self.record_ok(
                #[trigger] self.unwind_records[i],
            )
        &&& forall|i: int| 0 <= i < self.fdes.len() ==> self.fde_ok(#[trigger] self.fdes[i])
        &&& forall|i: int| 0 <= i < self.cies.len() ==> self.cie_ok(#[trigger] self.cies[i])
        &&& forall|i: int|
            0 <= i < self.symtab.syms.len() ==> self.sym_ok(#[trigger] self.symtab.syms[i])
    }

    /// The header of the section that a subsection is part of.
    pub open spec fn header(self, s: InputSection) -> SectionView {
        if s.obj == UNSET {
            self.synthetic_hdrs[s.shndx as int]@
        } else {
            self.objs[s.obj as int].sect_hdrs[s.shndx as int]@
        }
    }

    /// The header of the section that a subsection is part of.
    pub fn hdr_of(&self, id: usize) -> (r: &MachSection)
        requires
            self.wf(),
            id < self.isecs.len(),
        ensures
            r@ == self.header(self.isecs[id as int]),
    {
        proof {
            assert(self.isec_ok(self.isecs[id as int]));
        }
        let s: &InputSection = &self.isecs[id];
        if s.obj == UNSET {
            &self.synthetic_hdrs[s.shndx as usize]
        } else {
            &self.objs[s.obj as usize].sect_hdrs[s.shndx as usize]
        }
    }

    /// The symbol that a relocation refers to, if it refers to one.
    pub open spec fn target_sym(self, obj: u32, rel: Reloc) -> Option<u32> {
        match rel.refers_to() {
            RelocTarget::Sym(i) => Some(self.objs[obj as int].syms[i as int]),
            RelocTarget::Section(_) => None,
        }
    }

    /// The symbol that a relocation refers to, if it refers to one.
    pub fn reloc_target_sym(&self, obj: u32, rel: &Reloc) -> (r: Option<u32>)
        requires
            self.wf(),
            obj < self.objs.len(),
            self.reloc_ok(obj, *rel),
        ensures
            r == self.target_sym(obj, *rel),
            r matches Some(id) ==> id < self.symtab.syms.len(),
    {
        proof {
            assert(self.obj_ok(self.objs[obj as int]));
        }
        match rel.target() {
            RelocTarget::Sym(i) => Some(self.objs[obj as usize].syms[i as usize]),
            RelocTarget::Section(_) => None,
        }
    }

    /// The subsection that a relocation's target lives in, if any.
    pub open spec fn target_isec(self, obj: u32, rel: Reloc) -> Option<u32> {
        match rel.refers_to() {
            RelocTarget::Sym(i) => self.symtab.syms[self.objs[obj as int].syms[i as int] as int].section(),
            RelocTarget::Section(i) => Some(i),
        }
    }

    /// The subsection that a relocation's target lives in, if any.
    pub fn reloc_target_isec(&self, obj: u32, rel: &Reloc) -> (r: Option<u32>)
        requires
            self.wf(),
            obj < self.objs.len(),
            self.reloc_ok(obj, *rel),
        ensures
            r == self.target_isec(obj, *rel),
            r matches Some(id) ==> id < self.isecs.len(),
    {
        proof {
            assert(self.obj_ok(self.objs[obj as int]));
        }
        match rel.target() {
            RelocTarget::Sym(i) => {
                let id: u32 = self.objs[obj as usize].syms[i as usize];
                proof {
                    assert(self.sym_ok(self.symtab.syms[id as int]));
                }
                self.symtab.syms[id as usize].isec()
            },
            RelocTarget::Section(i) => Some(i),
        }
    }
}

/// The redirects of well-formed inputs lead to existing subsections.
pub proof fn lemma_wf_redirects(x: Inputs)
    requires
        x.wf(),
    ensures
        redirects_exist(x.isecs@),
{
    assert forall|i: int| 0 <= i < x.isecs.len() implies (#[trigger] x.isecs@[i]).replacement
        == NO_REPLACEMENT || x.isecs@[i].replacement < x.isecs.len() by {
        assert(x.isec_ok(x.isecs[i]));
    }
}

/// True when a pass may have turned one subsection into the other: it stays
/// part of the same section with the same relocations and unwind records,
/// and a dead one stays dead.
pub open spec fn same_part(a: InputSection, b: InputSection) -> bool {
    &&& b.obj == a.obj
    &&& b.shndx == a.shndx
    &&& b.relocs == a.relocs
    &&& b.unwind_offset == a.unwind_offset
    &&& b.nunwind == a.nunwind
    &&& b.is_alive ==> a.is_alive
}

/// Inputs stay well-formed when their subsections stay parts of the same
/// sections, and the subsections and symbols behind them are sound.
pub proof fn lemma_wf_grown(a: Inputs, b: Inputs)
    requires
        a.wf(),
        b.objs == a.objs,
        a.synthetic_hdrs@.is_prefix_of(b.synthetic_hdrs@),
        b.unwind_records == a.unwind_records,
        b.cies == a.cies,
        b.fdes == a.fdes,
        a.isecs.len() <= b.isecs.len() < NO_REPLACEMENT,
        forall|i: int|
            0 <= i < a.isecs.len() ==> same_part(a.isecs[i], #[trigger] b.isecs[i]) && (
            b.isecs[i].replacement == NO_REPLACEMENT || b.isecs[i].replacement < b.isecs.len()),
        forall|i: int|
            a.isecs.len() <= i < b.isecs.len() ==> b.isec_ok(#[trigger] b.isecs[i])
                && b.isecs[i].nunwind == 0,
        a.symtab.syms.len() <= b.symtab.syms.len() < UNSET,
        forall|i: int|
            0 <= i < b.symtab.syms.len() ==> b.sym_ok(#[trigger] b.symtab.syms[i]),
    ensures
        b.wf(),
{
    assert forall|i: int| 0 <= i < b.objs.len() implies b.obj_ok(#[trigger] b.objs[i]) by {
        assert(a.obj_ok(a.objs[i]));
    }
    assert forall|i: int| 0 <= i < b.isecs.len() implies b.isec_ok(#[trigger] b.isecs[i]) by {
        if i < a.isecs.len() {
            let s = b.isecs[i];
            assert(a.isec_ok(a.isecs[i]));
            assert(same_part(a.isecs[i], s));
            assert forall|k: int| 0 <= k < s.relocs.len() implies b.reloc_ok(
                s.obj,
                #[trigger] s.relocs[k],
            ) by {
                assert(a.reloc_ok(s.obj, a.isecs[i].relocs[k]));
            }
        }
    }
    assert forall|i: int| 0 <= i < b.isecs.len() implies #[trigger] b.range_ok(i) by {
        if i < a.isecs.len() {
            assert(a.range_ok(i));
            assert(same_part(a.isecs[i], b.isecs[i]));
        } else {
            assert(b.isecs[i].nunwind == 0);
        }
    }
    assert forall|i: int| 0 <= i < b.unwind_records.len() implies b.record_ok(
        #[trigger] b.unwind_records[i],
    ) by {
        assert(a.record_ok(a.unwind_records[i]));
    }
    assert forall|i: int| 0 <= i < b.fdes.len() implies b.fde_ok(#[trigger] b.fdes[i]) by {
        assert(a.fde_ok(a.fdes[i]));
    }
    assert forall|i: int| 0 <= i < b.cies.len() implies b.cie_ok(#[trigger] b.cies[i]) by {
        assert(a.cie_ok(a.cies[i]));
    }
}

} // verus!
