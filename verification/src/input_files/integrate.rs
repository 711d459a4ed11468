//! Appends staged objects to the arenas of the whole link.
use super::eh_frame::{CieView, FdeView};
use super::{Cie, Fde, ObjectFile, StagedObject, UnwindRecord};
use crate::input_sections::{
    InputSection, IsecView, Reloc, RelocTarget, NO_REPLACEMENT, TARGET_SECTION, UNSET,
};
use crate::inputs::Inputs;
use crate::macho::NList;
use crate::symbol::{SymbolTable, NONE};
use crate::util::bytes;
use vstd::prelude::*;

verus! {

/// Why staged objects cannot be appended.
#[derive(Clone, Copy, Debug, PartialEq, Eq, Structural)]
pub enum IntegrateError {
    /// An object refers to something that it does not have.
    BadReference,
    /// The symbols that were interned in advance are not those of the
    /// objects.
    BadSymbols,
    /// There is too much of something to number it.
    TooMany,
}

/// True when a relocation of a staged object has a target.
pub open spec fn staged_reloc_ok(st: StagedObject, r: Reloc) -> bool {
    match r.refers_to() {
        RelocTarget::Sym(j) => j < st.nlists.len(),
        RelocTarget::Section(j) => j < st.isecs.len(),
    }
}

/// True when a staged subsection refers to what the object has.
pub open spec fn staged_isec_ok(st: StagedObject, s: InputSection) -> bool {
    &&& s.shndx < st.sect_hdrs.len()
    &&& s.replacement == NO_REPLACEMENT
    &&& s.nunwind == 0
    &&& forall|k: int| 0 <= k < s.relocs.len() ==> staged_reloc_ok(st, #[trigger] s.relocs[k])
}

/// True when a staged unwind record refers to what the object has.
pub open spec fn staged_record_ok(st: StagedObject, r: UnwindRecord) -> bool {
    &&& r.isec < st.isecs.len()
    &&& r.lsda matches Some(l) ==> l.0 < st.isecs.len()
    &&& r.fde matches Some(f) ==> f < st.fdes.len()
    &&& r.personality matches Some(p) ==> p < st.nlists.len()
}

/// True when a staged FDE refers to what the object has.
pub open spec fn staged_fde_ok(st: StagedObject, f: Fde) -> bool {
    &&& f.isec < st.isecs.len()
    &&& f.cie < st.cies.len()
    &&& f.lsda matches Some(l) ==> l.0 < st.isecs.len()
}

/// True when everything in a staged object refers to what the object has.
pub open spec fn staged_ok(st: StagedObject) -> bool {
    &&& st.sym_names.len() == st.nlists.len()
    &&& forall|i: int| 0 <= i < st.isecs.len() ==> staged_isec_ok(st, #[trigger] st.isecs[i])
    &&& forall|i: int| 0 <= i < st.subsecs.len() ==> (#[trigger] st.subsecs[i]) < st.isecs.len()
    &&& forall|i: int| 0 <= i < st.unwind.len() ==> staged_record_ok(st, #[trigger] st.unwind[i])
    &&& forall|i: int|
        0 <= i < st.cies.len() ==> ((#[trigger] st.cies[i]).personality matches Some(p) ==> p
            < st.nlists.len())
    &&& forall|i: int| 0 <= i < st.fdes.len() ==> staged_fde_ok(st, #[trigger] st.fdes[i])
}

fn check_isec(st: &StagedObject, i: usize) -> (r: bool)
    requires
        i < st.isecs.len(),
    ensures
        r == staged_isec_ok(*st, st.isecs[i as int]),
{
    let s: &InputSection = &st.isecs[i];
    if s.shndx as usize >= st.sect_hdrs.len() || s.replacement != NO_REPLACEMENT || s.nunwind != 0 {
        return false;
    }
    let mut k: usize = 0;
    while k < s.relocs.len()
        invariant
            i < st.isecs.len(),
            *s == st.isecs[i as int],
            k <= s.relocs.len(),
            forall|j: int| 0 <= j < k ==> staged_reloc_ok(*st, #[trigger] s.relocs[j]),
        decreases s.relocs.len() - k,
    {
        let ok: bool = match s.relocs[k].target() {
            RelocTarget::Sym(j) => (j as usize) < st.nlists.len(),
            RelocTarget::Section(j) => (j as usize) < st.isecs.len(),
        };
        if !ok {
            assert(!staged_reloc_ok(*st, s.relocs[k as int]));
            return false;
        }
        k += 1;
    }
    true
}

fn check_record(st: &StagedObject, r: &UnwindRecord) -> (ok: bool)
    ensures
        ok == staged_record_ok(*st, *r),
{
    let lsda: bool = match r.lsda {
        Some(l) => l.0 < st.isecs.len(),
        None => true,
    };
    let fde: bool = match r.fde {
        Some(f) => f < st.fdes.len(),
        None => true,
    };
    let pers: bool = match r.personality {
        Some(p) => (p as usize) < st.nlists.len(),
        None => true,
    };
    r.isec < st.isecs.len() && lsda && fde && pers
}

fn check_fde(st: &StagedObject, f: &Fde) -> (ok: bool)
    ensures
        ok == staged_fde_ok(*st, *f),
{
    let lsda: bool = match f.lsda {
        Some(l) => l.0 < st.isecs.len(),
        None => true,
    };
    f.isec < st.isecs.len() && f.cie < st.cies.len() && lsda
}

fn check_lists(st: &StagedObject) -> (r: bool)
    ensures
        r == ((forall|i: int|
            0 <= i < st.subsecs.len() ==> (#[trigger] st.subsecs[i]) < st.isecs.len()) && (forall|
            i: int,
        |
            0 <= i < st.cies.len() ==> ((#[trigger] st.cies[i]).personality matches Some(p) ==> p
                < st.nlists.len()))),
{
    let mut i: usize = 0;
    while i < st.subsecs.len()
        invariant
            i <= st.subsecs.len(),
            forall|k: int| 0 <= k < i ==> (#[trigger] st.subsecs[k]) < st.isecs.len(),
        decreases st.subsecs.len() - i,
    {
        if st.subsecs[i] >= st.isecs.len() {
            return false;
        }
        i += 1;
    }
    let mut k: usize = 0;
    while k < st.cies.len()
        invariant
            k <= st.cies.len(),
            forall|j: int|
                0 <= j < k ==> ((#[trigger] st.cies[j]).personality matches Some(p) ==> p
                    < st.nlists.len()),
        decreases st.cies.len() - k,
    {
        if let Some(p) = st.cies[k].personality {
            if p as usize >= st.nlists.len() {
                assert(!(st.cies[k as int].personality matches Some(p) ==> p < st.nlists.len()));
                return false;
            }
        }
        k += 1;
    }
    true
}

/// Tests that everything in a staged object refers to what the object has.
pub fn check_staged(st: &StagedObject) -> (r: bool)
    ensures
        r == staged_ok(*st),
{
    if st.sym_names.len() != st.nlists.len() || !check_lists(st) {
        return false;
    }
    let mut i: usize = 0;
    while i < st.isecs.len()
        invariant
            i <= st.isecs.len(),
            forall|k: int| 0 <= k < i ==> staged_isec_ok(*st, #[trigger] st.isecs[k]),
        decreases st.isecs.len() - i,
    {
        if !check_isec(st, i) {
            return false;
        }
        i += 1;
    }
    let mut j: usize = 0;
    while j < st.unwind.len()
        invariant
            j <= st.unwind.len(),
            forall|k: int| 0 <= k < j ==> staged_record_ok(*st, #[trigger] st.unwind[k]),
        decreases st.unwind.len() - j,
    {
        if !check_record(st, &st.unwind[j]) {
            assert(!staged_record_ok(*st, st.unwind[j as int]));
            return false;
        }
        j += 1;
    }
    let mut n: usize = 0;
    while n < st.fdes.len()
        invariant
            n <= st.fdes.len(),
            forall|k: int| 0 <= k < n ==> staged_fde_ok(*st, #[trigger] st.fdes[k]),
        decreases st.fdes.len() - n,
    {
        if !check_fde(st, &st.fdes[n]) {
            assert(!staged_fde_ok(*st, st.fdes[n as int]));
            return false;
        }
        n += 1;
    }
    true
}

/// True for an entry of a symbol that is the object's own.
pub open spec fn is_local(e: NList) -> bool {
    e.stab() || !e.external()
}

/// How many of the first `n` entries are of the object's own symbols.
pub open spec fn local_count(nlists: Seq<NList>, n: int) -> int
    decreases n,
{
    if n <= 0 {
        0
    } else {
        local_count(nlists, n - 1) + if is_local(nlists[n - 1]) {
            1int
        } else {
            0int
        }
    }
}

/// How many of them are of global symbols.
pub open spec fn global_count(nlists: Seq<NList>, n: int) -> int
    decreases n,
{
    if n <= 0 {
        0
    } else {
        global_count(nlists, n - 1) + if is_local(nlists[n - 1]) {
            0int
        } else {
            1int
        }
    }
}

/// What a symbol table holds: the names of its symbols, and the symbols of
/// global names.
#[verifier::ext_equal]
pub struct TableView {
    pub names: Seq<Seq<u8>>,
    pub ids: Map<Seq<u8>, u32>,
}

/// What a symbol table holds.
pub open spec fn table_of(t: SymbolTable) -> TableView {
    TableView { names: crate::symbol::sym_names(t.syms@), ids: t.ids() }
}

/// The table with a symbol for each of the first `n` entries, and those
/// symbols. A global name whose symbol is known in advance takes the next of
/// `pre`.
pub open spec fn assigned(
    t: TableView,
    nlists: Seq<NList>,
    names: Seq<Seq<u8>>,
    pre: Option<Seq<u32>>,
    n: int,
) -> (TableView, Seq<u32>)
    decreases n,
{
    if n <= 0 {
        (t, Seq::empty())
    } else {
        let (u, syms) = assigned(t, nlists, names, pre, n - 1);
        let name = names[n - 1];
        if is_local(nlists[n - 1]) {
            (
                TableView { names: u.names.push(name), ..u },
                syms.push(u.names.len() as u32),
            )
        } else {
            match pre {
                Some(p) => (u, syms.push(p[global_count(nlists, n - 1)])),
                None => if u.ids.contains_key(name) {
                    (u, syms.push(u.ids[name]))
                } else {
                    (
                        TableView {
                            names: u.names.push(name),
                            ids: u.ids.insert(name, u.names.len() as u32),
                        },
                        syms.push(u.names.len() as u32),
                    )
                },
            }
        }
    }
}

proof fn lemma_counts(nlists: Seq<NList>, n: int)
    requires
        0 <= n,
    ensures
        0 <= local_count(nlists, n),
        0 <= global_count(nlists, n),
        local_count(nlists, n) + global_count(nlists, n) == n,
    decreases n,
{
    if n > 0 {
        lemma_counts(nlists, n - 1);
    }
}

proof fn lemma_global_grows(nlists: Seq<NList>, a: int, b: int)
    requires
        0 <= a <= b,
    ensures
        global_count(nlists, a) <= global_count(nlists, b),
    decreases b,
{
    if a < b {
        lemma_global_grows(nlists, a, b - 1);
    }
}

/// Gives each entry of an object a symbol.
fn assign_symbols(
    t: &mut SymbolTable,
    nlists: &Vec<NList>,
    names: &Vec<Vec<u8>>,
    pre: Option<&Vec<u32>>,
) -> (r: Vec<u32>)
    requires
        old(t).wf(),
        names.len() == nlists.len(),
        old(t).syms.len() + nlists.len() < NONE,
        pre matches Some(p) ==> p.len() == global_count(nlists@, nlists.len() as int) && forall|
            i: int,
        |
            0 <= i < p.len() ==> (#[trigger] p[i]) < old(t).syms.len(),
    ensures
        final(t).wf(),
        ({
            let p = match pre {
                Some(v) => Some(v@),
                None => None::<Seq<u32>>,
            };
            (table_of(*final(t)), r@) == assigned(
                table_of(*old(t)),
                nlists@,
                bytes::views(names@),
                p,
                nlists.len() as int,
            )
        }),
        r.len() == nlists.len(),
        forall|i: int| 0 <= i < r.len() ==> (#[trigger] r[i]) < final(t).syms.len(),
        old(t).syms.len() <= final(t).syms.len() <= old(t).syms.len() + nlists.len(),
        final(t).syms@.take(old(t).syms.len() as int) == old(t).syms@,
        final(t).fresh_from(old(t).syms.len() as int),
{
    let ghost start = *t;
    let ghost t0 = table_of(*t);
    let ghost nv = bytes::views(names@);
    let ghost p = match pre {
        Some(v) => Some(v@),
        None => None::<Seq<u32>>,
    };
    let ghost first = t.syms.len() as int;
    let mut r: Vec<u32> = Vec::new();
    assert(r@ =~= Seq::empty());
    assert(t.syms@.take(first) =~= t.syms@);
    let mut used: usize = 0;
    let mut n: usize = 0;
    while n < nlists.len()
        invariant
            n <= nlists.len(),
            names.len() == nlists.len(),
            nv == bytes::views(names@),
            first == start.syms.len(),
            first + nlists.len() < NONE,
            p == match pre {
                Some(v) => Some(v@),
                None => None::<Seq<u32>>,
            },
            pre matches Some(v) ==> v.len() == global_count(nlists@, nlists.len() as int)
                && forall|i: int| 0 <= i < v.len() ==> (#[trigger] v[i]) < first,
            t.wf(),
            used == global_count(nlists@, n as int),
            (table_of(*t), r@) == assigned(t0, nlists@, nv, p, n as int),
            r.len() == n,
            forall|i: int| 0 <= i < r.len() ==> (#[trigger] r[i]) < t.syms.len(),
            first <= t.syms.len() <= first + n,
            t.syms@.take(first) == start.syms@,
            t.fresh_from(first),
        decreases nlists.len() - n,
    {
        assert(nv[n as int] == names[n as int]@);
        let ghost before = *t;
        let ghost bn = crate::symbol::sym_names(before.syms@);
        assert(bn.len() == before.syms.len());
        proof {
            lemma_counts(nlists@, n as int);
            lemma_global_grows(nlists@, n + 1, nlists.len() as int);
        }
        if nlists[n].is_stab() || !nlists[n].is_extern() {
            let id: u32 = t.add_local(bytes::to_vec(names[n].as_slice()));
            r.push(id);
            proof {
                assert(crate::symbol::sym_names(t.syms@) =~= bn.push(nv[n as int]));
                assert(t.syms@.take(first) =~= before.syms@.take(first));
                assert forall|i: int| first <= i < t.syms.len() implies (#[trigger] t.syms[i])
                    == crate::symbol::Symbol::fresh(t.syms[i].name) by {
                    if i < before.syms.len() {
                        assert(before.syms[i] == crate::symbol::Symbol::fresh(
                            before.syms[i].name,
                        ));
                    }
                }
            }
        } else {
            match pre {
                Some(v) => {
                    r.push(v[used]);
                },
                None => {
                    let id: u32 = t.intern(names[n].as_slice());
                    r.push(id);
                    proof {
                        reveal_with_fuel(crate::symbol::new_names, 2);
                        let one = seq![names[n as int]@];
                        assert(one.drop_last() =~= Seq::<Seq<u8>>::empty());
                        let added = crate::symbol::new_names(before.ids().dom(), one);
                        if before.ids().contains_key(nv[n as int]) {
                            assert(bn + added =~= bn);
                        } else {
                            assert(bn + added =~= bn.push(nv[n as int]));
                        }
                        assert(crate::symbol::sym_names(t.syms@).len() == t.syms.len());
                        assert(t.syms@.take(first) =~= before.syms@.take(first)) by {
                            assert(t.syms@.take(before.syms.len() as int) == before.syms@);
                            assert forall|i: int| 0 <= i < first implies t.syms@.take(first)[i]
                                == before.syms@.take(first)[i] by {
                                assert(t.syms@.take(before.syms.len() as int)[i]
                                    == before.syms@[i]);
                            }
                        }
                        assert forall|i: int| first <= i < t.syms.len() implies (
                        #[trigger] t.syms[i]) == crate::symbol::Symbol::fresh(t.syms[i].name) by {
                            if i < before.syms.len() {
                                assert(before.syms[i] == crate::symbol::Symbol::fresh(
                                    before.syms[i].name,
                                ));
                                assert(t.syms@.take(before.syms.len() as int)[i]
                                    == before.syms@[i]);
                            }
                        }
                    }
                },
            }
            used += 1;
        }
        n += 1;
    }
    r
}

/// A relocation with its target in the arena.
pub open spec fn rebased_reloc(r: Reloc, base: int) -> Reloc {
    match r.refers_to() {
        RelocTarget::Section(i) => Reloc {
            target: RelocTarget::Section((base + i) as u32).packed(),
            ..r
        },
        RelocTarget::Sym(_) => r,
    }
}

/// A subsection as part of object `obj`, with its targets in the arena.
pub open spec fn rebased_isec(s: IsecView, base: int, obj: u32) -> IsecView {
    IsecView { obj, relocs: s.relocs.map_values(|r: Reloc| rebased_reloc(r, base)), ..s }
}

/// A subsection and an offset, in the arena.
pub open spec fn rebased_lsda(l: Option<(usize, u32)>, base: int) -> Option<(usize, u32)> {
    match l {
        Some(p) => Some(((p.0 + base) as usize, p.1)),
        None => None,
    }
}

/// A local symbol index turned into a symbol.
pub open spec fn rebased_sym(p: Option<u32>, syms: Seq<u32>) -> Option<u32> {
    match p {
        Some(i) => Some(syms[i as int]),
        None => None,
    }
}

/// An unwind record with its indices in the arenas.
pub open spec fn rebased_record(r: UnwindRecord, isec: int, fde: int, syms: Seq<u32>) -> UnwindRecord {
    UnwindRecord {
        isec: (r.isec + isec) as usize,
        lsda: rebased_lsda(r.lsda, isec),
        fde: match r.fde {
            Some(f) => Some((f + fde) as usize),
            None => None,
        },
        personality: rebased_sym(r.personality, syms),
        ..r
    }
}

/// A CIE with its indices in the arenas.
pub open spec fn rebased_cie(c: CieView, obj: u32, syms: Seq<u32>) -> CieView {
    CieView { obj, personality: rebased_sym(c.personality, syms), ..c }
}

/// An FDE with its indices in the arenas.
pub open spec fn rebased_fde(f: FdeView, obj: u32, isec: int, cie: int) -> FdeView {
    FdeView {
        obj,
        isec: (f.isec + isec) as usize,
        cie: (f.cie + cie) as usize,
        lsda: rebased_lsda(f.lsda, isec),
        ..f
    }
}

fn rebase_isec(s: &mut InputSection, base: u32, obj: u32, count: u32)
    requires
        base + count < TARGET_SECTION,
        forall|k: int|
            0 <= k < old(s).relocs.len() ==> ((#[trigger] old(s).relocs[k]).refers_to() matches
                RelocTarget::Section(i) ==> i < count),
    ensures
        final(s)@ == rebased_isec(old(s)@, base as int, obj),
{
    let ghost before = s@;
    let ghost want = before.relocs.map_values(|r: Reloc| rebased_reloc(r, base as int));
    s.obj = obj;
    let mut k: usize = 0;
    while k < s.relocs.len()
        invariant
            k <= s.relocs.len(),
            base + count < TARGET_SECTION,
            s.relocs.len() == before.relocs.len(),
            want == before.relocs.map_values(|r: Reloc| rebased_reloc(r, base as int)),
            s@ == (IsecView { obj, relocs: s.relocs@, ..before }),
            forall|j: int|
                0 <= j < before.relocs.len() ==> ((#[trigger] before.relocs[j]).refers_to() matches
                    RelocTarget::Section(i) ==> i < count),
            forall|j: int| 0 <= j < k ==> #[trigger] s.relocs[j] == want[j],
            forall|j: int| k <= j < s.relocs.len() ==> #[trigger] s.relocs[j] == before.relocs[j],
        decreases s.relocs.len() - k,
    {
        let mut r: Reloc = s.relocs[k];
        assert(before.relocs[k as int] == r);
        if let RelocTarget::Section(i) = r.target() {
            r.set_target(RelocTarget::Section(base + i));
        }
        assert(r == want[k as int]);
        s.relocs.set(k, r);
        k += 1;
    }
    assert(s.relocs@ =~= want);
}

fn rebase_isecs(isecs: &mut Vec<InputSection>, base: u32, obj: u32)
    requires
        base + old(isecs).len() < TARGET_SECTION,
        forall|i: int, k: int|
            0 <= i < old(isecs).len() && 0 <= k < old(isecs)[i].relocs.len() ==> ((
            #[trigger] old(isecs)[i].relocs[k]).refers_to() matches RelocTarget::Section(t) ==> t
                < old(isecs).len()),
    ensures
        crate::input_sections::isec_views(final(isecs)@) == crate::input_sections::isec_views(
            old(isecs)@,
        ).map_values(|s: IsecView| rebased_isec(s, base as int, obj)),
{
    let ghost start = isecs@;
    let ghost before = crate::input_sections::isec_views(isecs@);
    let ghost want = before.map_values(|s: IsecView| rebased_isec(s, base as int, obj));
    let count: u32 = isecs.len() as u32;
    let mut i: usize = 0;
    while i < isecs.len()
        invariant
            i <= isecs.len(),
            isecs.len() == start.len(),
            count == start.len(),
            base + count < TARGET_SECTION,
            before == crate::input_sections::isec_views(start),
            want == before.map_values(|s: IsecView| rebased_isec(s, base as int, obj)),
            forall|i: int, k: int|
                0 <= i < start.len() && 0 <= k < start[i].relocs.len() ==> ((
                #[trigger] start[i].relocs[k]).refers_to() matches RelocTarget::Section(t) ==> t
                    < start.len()),
            forall|j: int| 0 <= j < i ==> (#[trigger] isecs[j])@ == want[j],
            forall|j: int| i <= j < isecs.len() ==> #[trigger] isecs[j] == start[j],
        decreases isecs.len() - i,
    {
        assert(isecs[i as int] == start[i as int]);
        assert(before[i as int] == start[i as int]@);
        proof {
            let s = isecs[i as int];
            assert forall|k: int| 0 <= k < s.relocs.len() implies ((
            #[trigger] s.relocs[k]).refers_to() matches RelocTarget::Section(t) ==> t < count) by {
                assert(start[i as int].relocs[k] == s.relocs[k]);
            }
        }
        rebase_isec(&mut isecs[i], base, obj, count);
        i += 1;
    }
    assert(crate::input_sections::isec_views(isecs@) =~= want);
}

fn rebase_lsda(l: Option<(usize, u32)>, base: usize, count: usize) -> (r: Option<(usize, u32)>)
    requires
        base + count <= usize::MAX,
        l matches Some(p) ==> p.0 < count,
    ensures
        r == rebased_lsda(l, base as int),
{
    match l {
        Some(p) => Some((p.0 + base, p.1)),
        None => None,
    }
}

fn rebase_sym(p: Option<u32>, syms: &Vec<u32>) -> (r: Option<u32>)
    requires
        p matches Some(i) ==> i < syms.len(),
    ensures
        r == rebased_sym(p, syms@),
{
    match p {
        Some(i) => Some(syms[i as usize]),
        None => None,
    }
}

fn rebase_records(
    recs: &mut Vec<UnwindRecord>,
    isec: usize,
    nisecs: usize,
    fde: usize,
    nfdes: usize,
    syms: &Vec<u32>,
)
    requires
        isec + nisecs <= u32::MAX,
        fde + nfdes <= u32::MAX,
        forall|i: int|
            0 <= i < old(recs).len() ==> {
                let r = #[trigger] old(recs)[i];
                &&& r.isec < nisecs
                &&& r.lsda matches Some(l) ==> l.0 < nisecs
                &&& r.fde matches Some(f) ==> f < nfdes
                &&& r.personality matches Some(p) ==> p < syms.len()
            },
    ensures
        final(recs)@ == old(recs)@.map_values(
            |r: UnwindRecord| rebased_record(r, isec as int, fde as int, syms@),
        ),
{
    let ghost start = recs@;
    let ghost want = start.map_values(
        |r: UnwindRecord| rebased_record(r, isec as int, fde as int, syms@),
    );
    let mut i: usize = 0;
    while i < recs.len()
        invariant
            i <= recs.len(),
            recs.len() == start.len(),
            isec + nisecs <= u32::MAX,
            fde + nfdes <= u32::MAX,
            want == start.map_values(
                |r: UnwindRecord| rebased_record(r, isec as int, fde as int, syms@),
            ),
            forall|i: int|
                0 <= i < start.len() ==> {
                    let r = #[trigger] start[i];
                    &&& r.isec < nisecs
                    &&& r.lsda matches Some(l) ==> l.0 < nisecs
                    &&& r.fde matches Some(f) ==> f < nfdes
                    &&& r.personality matches Some(p) ==> p < syms.len()
                },
            forall|j: int| 0 <= j < i ==> #[trigger] recs[j] == want[j],
            forall|j: int| i <= j < recs.len() ==> #[trigger] recs[j] == start[j],
        decreases recs.len() - i,
    {
        assert(recs[i as int] == start[i as int]);
        let mut r: UnwindRecord = recs[i];
        r.isec = r.isec + isec;
        r.lsda = rebase_lsda(r.lsda, isec, nisecs);
        r.fde = match r.fde {
            Some(f) => Some(f + fde),
            None => None,
        };
        r.personality = rebase_sym(r.personality, syms);
        recs.set(i, r);
        i += 1;
    }
    assert(recs@ =~= want);
}

fn rebase_cie(c: &mut Cie, obj: u32, syms: &Vec<u32>)
    requires
        old(c).personality matches Some(p) ==> p < syms.len(),
    ensures
        final(c)@ == rebased_cie(old(c)@, obj, syms@),
{
    c.obj = obj;
    c.personality = rebase_sym(c.personality, syms);
}

fn rebase_cies(cies: &mut Vec<Cie>, obj: u32, syms: &Vec<u32>)
    requires
        forall|i: int|
            0 <= i < old(cies).len() ==> ((#[trigger] old(cies)[i]).personality matches Some(p)
                ==> p < syms.len()),
    ensures
        super::eh_frame::cie_views(final(cies)@) == super::eh_frame::cie_views(
            old(cies)@,
        ).map_values(|c: CieView| rebased_cie(c, obj, syms@)),
{
    let ghost start = cies@;
    let ghost want = super::eh_frame::cie_views(start).map_values(
        |c: CieView| rebased_cie(c, obj, syms@),
    );
    let mut i: usize = 0;
    while i < cies.len()
        invariant
            i <= cies.len(),
            cies.len() == start.len(),
            want == super::eh_frame::cie_views(start).map_values(
                |c: CieView| rebased_cie(c, obj, syms@),
            ),
            forall|i: int|
                0 <= i < start.len() ==> ((#[trigger] start[i]).personality matches Some(p) ==> p
                    < syms.len()),
            forall|j: int| 0 <= j < i ==> (#[trigger] cies[j])@ == want[j],
            forall|j: int| i <= j < cies.len() ==> #[trigger] cies[j] == start[j],
        decreases cies.len() - i,
    {
        assert(cies[i as int] == start[i as int]);
        rebase_cie(&mut cies[i], obj, syms);
        i += 1;
    }
    assert(super::eh_frame::cie_views(cies@) =~= want);
}

fn rebase_fde(f: &mut Fde, obj: u32, isec: usize, nisecs: usize, cie: usize, ncies: usize)
    requires
        isec + nisecs <= u32::MAX,
        cie + ncies <= u32::MAX,
        old(f).isec < nisecs,
        old(f).cie < ncies,
        old(f).lsda matches Some(l) ==> l.0 < nisecs,
    ensures
        final(f)@ == rebased_fde(old(f)@, obj, isec as int, cie as int),
{
    f.obj = obj;
    f.isec = f.isec + isec;
    f.cie = f.cie + cie;
    f.lsda = rebase_lsda(f.lsda, isec, nisecs);
}

fn rebase_fdes(fdes: &mut Vec<Fde>, obj: u32, isec: usize, nisecs: usize, cie: usize, ncies: usize)
    requires
        isec + nisecs <= u32::MAX,
        cie + ncies <= u32::MAX,
        forall|i: int|
            0 <= i < old(fdes).len() ==> {
                let f = #[trigger] old(fdes)[i];
                &&& f.isec < nisecs
                &&& f.cie < ncies
                &&& f.lsda matches Some(l) ==> l.0 < nisecs
            },
    ensures
        super::eh_frame::fde_views(final(fdes)@) == super::eh_frame::fde_views(
            old(fdes)@,
        ).map_values(|f: FdeView| rebased_fde(f, obj, isec as int, cie as int)),
{
    let ghost start = fdes@;
    let ghost want = super::eh_frame::fde_views(start).map_values(
        |f: FdeView| rebased_fde(f, obj, isec as int, cie as int),
    );
    let mut i: usize = 0;
    while i < fdes.len()
        invariant
            i <= fdes.len(),
            fdes.len() == start.len(),
            isec + nisecs <= u32::MAX,
            cie + ncies <= u32::MAX,
            want == super::eh_frame::fde_views(start).map_values(
                |f: FdeView| rebased_fde(f, obj, isec as int, cie as int),
            ),
            forall|i: int|
                0 <= i < start.len() ==> {
                    let f = #[trigger] start[i];
                    &&& f.isec < nisecs
                    &&& f.cie < ncies
                    &&& f.lsda matches Some(l) ==> l.0 < nisecs
                },
            forall|j: int| 0 <= j < i ==> (#[trigger] fdes[j])@ == want[j],
            forall|j: int| i <= j < fdes.len() ==> #[trigger] fdes[j] == start[j],
        decreases fdes.len() - i,
    {
        assert(fdes[i as int] == start[i as int]);
        rebase_fde(&mut fdes[i], obj, isec, nisecs, cie, ncies);
        i += 1;
    }
    assert(super::eh_frame::fde_views(fdes@) =~= want);
}

/// Subsection indices in the arena.
pub open spec fn rebased_subsecs(subsecs: Seq<usize>, base: int) -> Seq<usize> {
    subsecs.map_values(|i: usize| (i + base) as usize)
}

fn rebase_subsecs(subsecs: &mut Vec<usize>, base: usize, count: usize)
    requires
        base + count <= u32::MAX,
        forall|i: int| 0 <= i < old(subsecs).len() ==> (#[trigger] old(subsecs)[i]) < count,
    ensures
        final(subsecs)@ == rebased_subsecs(old(subsecs)@, base as int),
{
    let ghost start = subsecs@;
    let mut i: usize = 0;
    while i < subsecs.len()
        invariant
            i <= subsecs.len(),
            subsecs.len() == start.len(),
            base + count <= u32::MAX,
            forall|i: int| 0 <= i < start.len() ==> (#[trigger] start[i]) < count,
            forall|j: int|
                0 <= j < i ==> #[trigger] subsecs[j] == rebased_subsecs(start, base as int)[j],
            forall|j: int| i <= j < subsecs.len() ==> #[trigger] subsecs[j] == start[j],
        decreases subsecs.len() - i,
    {
        assert(start[i as int] < count);
        let v: usize = subsecs[i] + base;
        subsecs.set(i, v);
        i += 1;
    }
    assert(subsecs@ =~= rebased_subsecs(start, base as int));
}

/// What the arenas hold.
#[verifier::ext_equal]
pub struct ArenaView {
    pub table: TableView,
    pub isecs: Seq<IsecView>,
    pub records: Seq<UnwindRecord>,
    pub cies: Seq<CieView>,
    pub fdes: Seq<FdeView>,
    /// The number of objects.
    pub nobjs: int,
}

/// What the arenas of inputs hold.
pub open spec fn arena_of(x: Inputs) -> ArenaView {
    ArenaView {
        table: table_of(x.symtab),
        isecs: crate::input_sections::isec_views(x.isecs@),
        records: x.unwind_records@,
        cies: super::eh_frame::cie_views(x.cies@),
        fdes: super::eh_frame::fde_views(x.fdes@),
        nobjs: x.objs.len() as int,
    }
}

/// The symbols of an object's entries.
pub open spec fn object_syms(a: ArenaView, st: StagedObject, pre: Option<Seq<u32>>) -> Seq<u32> {
    assigned(a.table, st.nlists@, bytes::views(st.sym_names@), pre, st.nlists.len() as int).1
}

/// The arenas with one more object: its indices count from where the arenas
/// ended.
pub open spec fn with_object(a: ArenaView, st: StagedObject, pre: Option<Seq<u32>>) -> ArenaView {
    let syms = object_syms(a, st, pre);
    let isec = a.isecs.len() as int;
    let fde = a.fdes.len() as int;
    let cie = a.cies.len() as int;
    let obj = a.nobjs as u32;
    ArenaView {
        table: assigned(
            a.table,
            st.nlists@,
            bytes::views(st.sym_names@),
            pre,
            st.nlists.len() as int,
        ).0,
        isecs: a.isecs + crate::input_sections::isec_views(st.isecs@).map_values(
            |s: IsecView| rebased_isec(s, isec, obj),
        ),
        records: a.records + st.unwind@.map_values(
            |r: UnwindRecord| rebased_record(r, isec, fde, syms),
        ),
        cies: a.cies + super::eh_frame::cie_views(st.cies@).map_values(
            |c: CieView| rebased_cie(c, obj, syms),
        ),
        fdes: a.fdes + super::eh_frame::fde_views(st.fdes@).map_values(
            |f: FdeView| rebased_fde(f, obj, isec, cie),
        ),
        nobjs: a.nobjs + 1,
    }
}

/// True when an object is the staged one, with its subsections counted from
/// `base` and its entries' symbols.
pub open spec fn is_object(o: ObjectFile, st: StagedObject, base: int, syms: Seq<u32>) -> bool {
    &&& o.name == st.name
    &&& o.parent == st.parent
    &&& o.is_alive == st.alive
    &&& o.priority == st.priority
    &&& o.linker_options == st.linker_options
    &&& o.hidden == st.hidden
    &&& o.sect_hdrs == st.sect_hdrs
    &&& o.subsecs@ == rebased_subsecs(st.subsecs@, base)
    &&& o.objc_image_info == st.objc_image_info
    &&& o.has_debug_info == st.has_debug_info
    &&& o.lto_module is None
    &&& o.nlists == st.nlists
    &&& o.syms@ == syms
    &&& o.dice == st.dice
    &&& o.loh == st.loh
}

/// True when there are numbers enough for one more object.
pub open spec fn has_room(x: Inputs, st: StagedObject) -> bool {
    &&& x.objs.len() + 1 < UNSET
    &&& x.isecs.len() + st.isecs.len() < TARGET_SECTION
    &&& x.symtab.syms.len() + st.nlists.len() < UNSET
    &&& x.unwind_records.len() + st.unwind.len() < UNSET
    &&& x.cies.len() + st.cies.len() < UNSET
    &&& x.fdes.len() + st.fdes.len() < UNSET
}

fn check_room(x: &Inputs, st: &StagedObject) -> (r: bool)
    ensures
        r == has_room(*x, *st),
{
    (x.objs.len() as u128) + 1 < 0xffff_ffff && x.isecs.len() as u128 + (st.isecs.len() as u128)
        < 0x8000_0000 && x.symtab.syms.len() as u128 + (st.nlists.len() as u128) < 0xffff_ffff
        && x.unwind_records.len() as u128 + (st.unwind.len() as u128) < 0xffff_ffff
        && x.cies.len() as u128 + (st.cies.len() as u128) < 0xffff_ffff && x.fdes.len() as u128 + (
    st.fdes.len() as u128) < 0xffff_ffff
}

/// The symbols interned in advance, as mathematical values.
pub open spec fn pre_view(pre: Option<&Vec<u32>>) -> Option<Seq<u32>> {
    match pre {
        Some(v) => Some(v@),
        None => None,
    }
}

/// True when symbols that were interned in advance are one for each global
/// entry, and exist.
pub open spec fn pre_ok(x: Inputs, st: StagedObject, pre: Option<Seq<u32>>) -> bool {
    pre matches Some(p) ==> p.len() == global_count(st.nlists@, st.nlists.len() as int) && forall|
        i: int,
    |
        0 <= i < p.len() ==> (#[trigger] p[i]) < x.symtab.syms.len()
}

/// Appends one object.
fn append_object(x: &mut Inputs, st: StagedObject, pre: Option<&Vec<u32>>)
    requires
        old(x).wf(),
        old(x).fdes_exist(),
        old(x).symtab.wf(),
        staged_ok(st),
        has_room(*old(x), st),
        pre_ok(*old(x), st, pre_view(pre)),
    ensures
        arena_of(*final(x)) == with_object(arena_of(*old(x)), st, pre_view(pre)),
        final(x).objs.len() == old(x).objs.len() + 1,
        final(x).objs@.take(old(x).objs.len() as int) == old(x).objs@,
        is_object(
            final(x).objs[old(x).objs.len() as int],
            st,
            old(x).isecs.len() as int,
            object_syms(arena_of(*old(x)), st, pre_view(pre)),
        ),
        final(x).symtab.syms.len() >= old(x).symtab.syms.len(),
        final(x).symtab.syms@.take(old(x).symtab.syms.len() as int) == old(x).symtab.syms@,
        final(x).symtab.fresh_from(old(x).symtab.syms.len() as int),
        final(x).synthetic_hdrs == old(x).synthetic_hdrs,
        final(x).symtab.wf(),
        final(x).wf(),
        final(x).fdes_exist(),
{
    let ghost start = *x;
    let ghost a = arena_of(*x);
    let ghost st0 = st;
    let ghost pv = pre_view(pre);
    let mut st = st;
    let isec_base: usize = x.isecs.len();
    let fde_base: usize = x.fdes.len();
    let cie_base: usize = x.cies.len();
    let obj: u32 = x.objs.len() as u32;
    let nisecs: usize = st.isecs.len();
    let ncies: usize = st.cies.len();
    let nfdes: usize = st.fdes.len();
    let syms: Vec<u32> = assign_symbols(&mut x.symtab, &st.nlists, &st.sym_names, pre);
    proof {
        assert forall|i: int, k: int|
            0 <= i < st.isecs.len() && 0 <= k < st.isecs[i].relocs.len() implies ((
        #[trigger] st.isecs[i].relocs[k]).refers_to() matches RelocTarget::Section(t) ==> t
            < st.isecs.len()) by {
            assert(staged_isec_ok(st, st.isecs[i]));
            assert(staged_reloc_ok(st, st.isecs[i].relocs[k]));
        }
        assert forall|i: int| 0 <= i < st.unwind.len() implies {
            let r = #[trigger] st.unwind[i];
            &&& r.isec < nisecs
            &&& r.lsda matches Some(l) ==> l.0 < nisecs
            &&& r.fde matches Some(f) ==> f < nfdes
            &&& r.personality matches Some(p) ==> p < syms.len()
        } by {
            assert(staged_record_ok(st, st.unwind[i]));
        }
        assert forall|i: int| 0 <= i < st.fdes.len() implies {
            let f = #[trigger] st.fdes[i];
            &&& f.isec < nisecs
            &&& f.cie < ncies
            &&& f.lsda matches Some(l) ==> l.0 < nisecs
        } by {
            assert(staged_fde_ok(st, st.fdes[i]));
        }
    }
    rebase_isecs(&mut st.isecs, isec_base as u32, obj);
    rebase_records(&mut st.unwind, isec_base, nisecs, fde_base, nfdes, &syms);
    rebase_cies(&mut st.cies, obj, &syms);
    rebase_fdes(&mut st.fdes, obj, isec_base, nisecs, cie_base, ncies);
    rebase_subsecs(&mut st.subsecs, isec_base, nisecs);
    let ghost new_isecs = st.isecs@;
    let ghost new_cies = st.cies@;
    let ghost new_fdes = st.fdes@;
    let ghost new_recs = st.unwind@;
    x.isecs.append(&mut st.isecs);
    x.unwind_records.append(&mut st.unwind);
    x.cies.append(&mut st.cies);
    x.fdes.append(&mut st.fdes);
    let o = ObjectFile {
        name: st.name,
        parent: st.parent,
        is_alive: st.alive,
        priority: st.priority,
        linker_options: st.linker_options,
        hidden: st.hidden,
        sect_hdrs: st.sect_hdrs,
        subsecs: st.subsecs,
        objc_image_info: st.objc_image_info,
        has_debug_info: st.has_debug_info,
        lto_module: None,
        nlists: st.nlists,
        syms,
        dice: st.dice,
        loh: st.loh,
    };
    x.objs.push(o);
    proof {
        assert(x.isecs@ =~= start.isecs@ + new_isecs);
        assert(crate::input_sections::isec_views(x.isecs@)
            =~= crate::input_sections::isec_views(start.isecs@)
            + crate::input_sections::isec_views(new_isecs));
        assert(super::eh_frame::cie_views(x.cies@) =~= super::eh_frame::cie_views(start.cies@)
            + super::eh_frame::cie_views(new_cies));
        assert(super::eh_frame::fde_views(x.fdes@) =~= super::eh_frame::fde_views(start.fdes@)
            + super::eh_frame::fde_views(new_fdes));
        assert(arena_of(*x) =~= with_object(a, st0, pv));
        assert(x.objs@.take(start.objs.len() as int) =~= start.objs@);
        lemma_appended_wf(start, *x, st0, pv);
    }
}

/// Inputs stay well-formed when a sound object is appended.
proof fn lemma_appended_wf(start: Inputs, x: Inputs, st: StagedObject, pv: Option<Seq<u32>>)
    requires
        start.wf(),
        start.fdes_exist(),
        staged_ok(st),
        has_room(start, st),
        arena_of(x) == with_object(arena_of(start), st, pv),
        x.objs.len() == start.objs.len() + 1,
        x.objs@.take(start.objs.len() as int) == start.objs@,
        is_object(
            x.objs[start.objs.len() as int],
            st,
            start.isecs.len() as int,
            object_syms(arena_of(start), st, pv),
        ),
        object_syms(arena_of(start), st, pv).len() == st.nlists.len(),
        forall|i: int|
            0 <= i < object_syms(arena_of(start), st, pv).len() ==> (
            #[trigger] object_syms(arena_of(start), st, pv)[i]) < x.symtab.syms.len(),
        start.symtab.syms.len() <= x.symtab.syms.len() < UNSET,
        x.symtab.syms@.take(start.symtab.syms.len() as int) == start.symtab.syms@,
        x.symtab.fresh_from(start.symtab.syms.len() as int),
        x.synthetic_hdrs == start.synthetic_hdrs,
    ensures
        x.wf(),
        x.fdes_exist(),
{
    let syms = object_syms(arena_of(start), st, pv);
    let base = start.isecs.len() as int;
    let nobj = start.objs.len() as int;
    let iv = crate::input_sections::isec_views(x.isecs@);
    let iv0 = crate::input_sections::isec_views(start.isecs@);
    let ivs = crate::input_sections::isec_views(st.isecs@);
    let cv = super::eh_frame::cie_views(x.cies@);
    let fv = super::eh_frame::fde_views(x.fdes@);
    assert(iv.len() == x.isecs.len());
    assert(cv.len() == x.cies.len());
    assert(fv.len() == x.fdes.len());
    assert forall|i: int| 0 <= i < x.objs.len() implies x.obj_ok(#[trigger] x.objs[i]) by {
        if i < nobj {
            assert(x.objs@.take(nobj)[i] == start.objs@[i]);
            assert(start.obj_ok(start.objs[i]));
        } else {
            let o = x.objs[i];
            assert forall|k: int| 0 <= k < o.subsecs.len() implies (#[trigger] o.subsecs[k])
                < x.isecs.len() by {
                assert(st.subsecs[k] < st.isecs.len());
            }
        }
    }
    assert forall|i: int| 0 <= i < x.isecs.len() implies x.isec_ok(#[trigger] x.isecs[i])
        && x.range_ok(i) by {
        let s = x.isecs[i];
        assert(iv[i] == s@);
        if i < base {
            assert(iv[i] == iv0[i]);
            let s0 = start.isecs[i];
            assert(start.isec_ok(start.isecs[i]));
            assert(start.range_ok(i));
            assert(s.relocs@ == s0.relocs@);
            if s.obj != UNSET {
                assert(x.objs@.take(nobj)[s.obj as int] == start.objs@[s.obj as int]);
            }
            assert forall|k: int| 0 <= k < s.relocs.len() implies x.reloc_ok(
                s.obj,
                #[trigger] s.relocs[k],
            ) by {
                assert(start.reloc_ok(s0.obj, s0.relocs[k]));
                assert(s.relocs@[k] == s0.relocs@[k]);
            }
            if s.is_alive && s.nunwind > 0 {
                assert forall|k: int|
                    s.unwind_offset <= k < s.unwind_offset + s.nunwind implies (
                #[trigger] x.unwind_records[k]).isec == i by {
                    assert(x.unwind_records@[k] == start.unwind_records@[k]);
                    assert(start.unwind_records[k].isec == i);
                }
            }
        } else {
            let j = i - base;
            let t = st.isecs[j];
            assert(ivs[j] == t@);
            assert(iv[i] == rebased_isec(t@, base, nobj as u32));
            assert(staged_isec_ok(st, st.isecs[j]));
            assert(s.obj == nobj);
            assert forall|k: int| 0 <= k < s.relocs.len() implies x.reloc_ok(
                s.obj,
                #[trigger] s.relocs[k],
            ) by {
                assert(staged_reloc_ok(st, t.relocs[k]));
                assert(s.relocs@[k] == rebased_reloc(t.relocs@[k], base));
            }
        }
    }
    assert forall|i: int| 0 <= i < x.isecs.len() implies #[trigger] x.range_ok(i) by {
        assert(x.isec_ok(x.isecs[i]));
    }
    let nrec = start.unwind_records.len() as int;
    assert forall|i: int| 0 <= i < x.unwind_records.len() implies x.record_ok(
        #[trigger] x.unwind_records[i],
    ) && (x.unwind_records[i].fde matches Some(f) ==> f < x.fdes.len()) by {
        if i < nrec {
            assert(x.unwind_records@[i] == start.unwind_records@[i]);
            assert(start.record_ok(start.unwind_records[i]));
            assert(start.unwind_records[i].fde matches Some(f) ==> f < start.fdes.len());
        } else {
            let r = st.unwind[i - nrec];
            assert(staged_record_ok(st, st.unwind[i - nrec]));
            assert(x.unwind_records@[i] == rebased_record(
                r,
                base,
                start.fdes.len() as int,
                syms,
            ));
        }
    }
    assert forall|i: int| 0 <= i < x.unwind_records.len() implies ((
    #[trigger] x.unwind_records[i]).fde matches Some(f) ==> f < x.fdes.len()) by {
        assert(x.record_ok(x.unwind_records[i]));
    }
    let nfde = start.fdes.len() as int;
    assert forall|i: int| 0 <= i < x.fdes.len() implies x.fde_ok(#[trigger] x.fdes[i]) by {
        assert(fv[i] == x.fdes[i]@);
        if i < nfde {
            assert(super::eh_frame::fde_views(start.fdes@)[i] == start.fdes[i]@);
            assert(start.fde_ok(start.fdes[i]));
        } else {
            assert(super::eh_frame::fde_views(st.fdes@)[i - nfde] == st.fdes[i - nfde]@);
            assert(staged_fde_ok(st, st.fdes[i - nfde]));
        }
    }
    let ncie = start.cies.len() as int;
    assert forall|i: int| 0 <= i < x.cies.len() implies x.cie_ok(#[trigger] x.cies[i]) by {
        assert(cv[i] == x.cies[i]@);
        if i < ncie {
            assert(super::eh_frame::cie_views(start.cies@)[i] == start.cies[i]@);
            assert(start.cie_ok(start.cies[i]));
        } else {
            assert(super::eh_frame::cie_views(st.cies@)[i - ncie] == st.cies[i - ncie]@);
            assert(st.cies[i - ncie].personality matches Some(p) ==> p < st.nlists.len());
        }
    }
    let nsym = start.symtab.syms.len() as int;
    assert forall|i: int| 0 <= i < x.symtab.syms.len() implies x.sym_ok(
        #[trigger] x.symtab.syms[i],
    ) by {
        if i < nsym {
            assert(x.symtab.syms@.take(nsym)[i] == start.symtab.syms@[i]);
            assert(start.sym_ok(start.symtab.syms[i]));
        } else {
            assert(x.symtab.syms[i] == crate::symbol::Symbol::fresh(x.symtab.syms[i].name));
        }
    }
}

/// What a context's arenas are after an object was appended with success.
pub open spec fn appended(before: Inputs, x: Inputs, st: StagedObject, pre: Option<Seq<u32>>) -> bool {
    &&& arena_of(x) == with_object(arena_of(before), st, pre)
    &&& x.objs.len() == before.objs.len() + 1
    &&& x.objs@.take(before.objs.len() as int) == before.objs@
    &&& is_object(
        x.objs[before.objs.len() as int],
        st,
        before.isecs.len() as int,
        object_syms(arena_of(before), st, pre),
    )
    &&& x.synthetic_hdrs == before.synthetic_hdrs
    &&& x.symtab.syms@.take(before.symtab.syms.len() as int) == before.symtab.syms@
    &&& x.symtab.fresh_from(before.symtab.syms.len() as int)
}

fn check_ids(ids: &Vec<u32>, nsyms: usize) -> (r: bool)
    ensures
        r == (forall|i: int| 0 <= i < ids.len() ==> (#[trigger] ids[i]) < nsyms),
{
    let mut i: usize = 0;
    while i < ids.len()
        invariant
            i <= ids.len(),
            forall|k: int| 0 <= k < i ==> (#[trigger] ids[k]) < nsyms,
        decreases ids.len() - i,
    {
        if ids[i] as usize >= nsyms {
            return false;
        }
        i += 1;
    }
    true
}

fn count_globals(nlists: &Vec<NList>) -> (r: usize)
    ensures
        r == global_count(nlists@, nlists.len() as int),
        r <= nlists.len(),
{
    let mut r: usize = 0;
    let mut n: usize = 0;
    while n < nlists.len()
        invariant
            n <= nlists.len(),
            r <= n,
            r == global_count(nlists@, n as int),
        decreases nlists.len() - n,
    {
        if !(nlists[n].is_stab() || !nlists[n].is_extern()) {
            r += 1;
        }
        n += 1;
    }
    r
}

/// Appends a staged object to the arenas: rebases its indices and interns
/// its symbol names, or takes the symbols that were interned in advance.
/// Returns its index. Nothing changes when it fails.
pub fn integrate_object_with(x: &mut Inputs, st: StagedObject, pre: Option<&Vec<u32>>) -> (r: Result<
    usize,
    IntegrateError,
>)
    requires
        old(x).wf(),
        old(x).fdes_exist(),
        old(x).symtab.wf(),
    ensures
        final(x).wf(),
        final(x).fdes_exist(),
        final(x).symtab.wf(),
        match r {
            Ok(i) => {
                &&& staged_ok(st)
                &&& pre_ok(*old(x), st, pre_view(pre))
                &&& has_room(*old(x), st)
                &&& i == old(x).objs.len()
                &&& appended(*old(x), *final(x), st, pre_view(pre))
            },
            Err(e) => {
                &&& *final(x) == *old(x)
                &&& e == if !staged_ok(st) {
                    IntegrateError::BadReference
                } else if !pre_ok(*old(x), st, pre_view(pre)) {
                    IntegrateError::BadSymbols
                } else {
                    IntegrateError::TooMany
                }
                &&& !(staged_ok(st) && pre_ok(*old(x), st, pre_view(pre)) && has_room(
                    *old(x),
                    st,
                ))
            },
        },
{
    if !check_staged(&st) {
        return Err(IntegrateError::BadReference);
    }
    if let Some(p) = pre {
        if p.len() != count_globals(&st.nlists) || !check_ids(p, x.symtab.syms.len()) {
            assert(!pre_ok(*x, st, pre_view(pre)));
            return Err(IntegrateError::BadSymbols);
        }
        assert(pre_ok(*x, st, pre_view(pre)));
    }
    if !check_room(x, &st) {
        return Err(IntegrateError::TooMany);
    }
    let idx: usize = x.objs.len();
    append_object(x, st, pre);
    Ok(idx)
}

/// Appends a staged object to the arenas, interning its symbol names.
pub fn integrate_object(x: &mut Inputs, st: StagedObject) -> (r: Result<usize, IntegrateError>)
    requires
        old(x).wf(),
        old(x).fdes_exist(),
        old(x).symtab.wf(),
    ensures
        final(x).wf(),
        final(x).fdes_exist(),
        final(x).symtab.wf(),
        match r {
            Ok(i) => staged_ok(st) && has_room(*old(x), st) && i == old(x).objs.len() && appended(
                *old(x),
                *final(x),
                st,
                None,
            ),
            Err(e) => *final(x) == *old(x) && e == (if !staged_ok(st) {
                IntegrateError::BadReference
            } else {
                IntegrateError::TooMany
            }) && !(staged_ok(st) && has_room(*old(x), st)),
        },
{
    integrate_object_with(x, st, None)
}

/// How many global entries the first `n` objects have.
pub open spec fn globals_before(staged: Seq<StagedObject>, n: int) -> int
    decreases n,
{
    if n <= 0 {
        0
    } else {
        globals_before(staged, n - 1) + global_count(
            staged[n - 1].nlists@,
            staged[n - 1].nlists.len() as int,
        )
    }
}

/// The symbols of the `n`th object among those of all.
pub open spec fn ids_of(staged: Seq<StagedObject>, ids: Seq<u32>, n: int) -> Seq<u32> {
    ids.subrange(globals_before(staged, n), globals_before(staged, n + 1))
}

/// The arenas with the first `n` objects, one behind the other.
pub open spec fn with_objects(a: ArenaView, staged: Seq<StagedObject>, ids: Seq<u32>, n: int) -> ArenaView
    decreases n,
{
    if n <= 0 {
        a
    } else {
        with_object(
            with_objects(a, staged, ids, n - 1),
            staged[n - 1],
            Some(ids_of(staged, ids, n - 1)),
        )
    }
}

/// How much the first `n` objects add to each arena.
#[verifier::ext_equal]
pub struct Totals {
    pub isecs: int,
    pub entries: int,
    pub records: int,
    pub cies: int,
    pub fdes: int,
}

/// How much the first `n` objects add to each arena.
pub open spec fn totals(staged: Seq<StagedObject>, n: int) -> Totals
    decreases n,
{
    if n <= 0 {
        Totals { isecs: 0, entries: 0, records: 0, cies: 0, fdes: 0 }
    } else {
        let t = totals(staged, n - 1);
        let st = staged[n - 1];
        Totals {
            isecs: t.isecs + st.isecs.len(),
            entries: t.entries + st.nlists.len(),
            records: t.records + st.unwind.len(),
            cies: t.cies + st.cies.len(),
            fdes: t.fdes + st.fdes.len(),
        }
    }
}

/// True when there are numbers enough for all objects.
pub open spec fn all_have_room(x: Inputs, staged: Seq<StagedObject>) -> bool {
    let t = totals(staged, staged.len() as int);
    &&& x.objs.len() + staged.len() < UNSET
    &&& x.isecs.len() + t.isecs < TARGET_SECTION
    &&& x.symtab.syms.len() + t.entries < UNSET
    &&& x.unwind_records.len() + t.records < UNSET
    &&& x.cies.len() + t.cies < UNSET
    &&& x.fdes.len() + t.fdes < UNSET
}

/// True when all objects are sound.
pub open spec fn all_staged_ok(staged: Seq<StagedObject>) -> bool {
    forall|i: int| 0 <= i < staged.len() ==> staged_ok(#[trigger] staged[i])
}

/// True when the symbols interned in advance are one for each global entry
/// of all objects, and exist.
pub open spec fn all_ids_ok(x: Inputs, staged: Seq<StagedObject>, ids: Seq<u32>) -> bool {
    ids.len() == globals_before(staged, staged.len() as int) && forall|i: int|
        0 <= i < ids.len() ==> (#[trigger] ids[i]) < x.symtab.syms.len()
}

proof fn lemma_totals_grow(staged: Seq<StagedObject>, a: int, b: int)
    requires
        0 <= a <= b,
    ensures
        0 <= totals(staged, a).isecs <= totals(staged, b).isecs,
        0 <= totals(staged, a).entries <= totals(staged, b).entries,
        0 <= totals(staged, a).records <= totals(staged, b).records,
        0 <= totals(staged, a).cies <= totals(staged, b).cies,
        0 <= totals(staged, a).fdes <= totals(staged, b).fdes,
    decreases b,
{
    if a < b {
        lemma_totals_grow(staged, a, b - 1);
    } else if a > 0 {
        lemma_totals_grow(staged, a - 1, b - 1);
    }
}

proof fn lemma_globals_grow(staged: Seq<StagedObject>, a: int, b: int)
    requires
        0 <= a <= b,
    ensures
        0 <= globals_before(staged, a) <= globals_before(staged, b),
    decreases b,
{
    if b > 0 {
        lemma_counts(staged[b - 1].nlists@, staged[b - 1].nlists.len() as int);
    }
    if a < b {
        lemma_globals_grow(staged, a, b - 1);
    } else if a > 0 {
        lemma_globals_grow(staged, a - 1, b - 1);
    }
}

fn check_all_staged(staged: &Vec<StagedObject>) -> (r: bool)
    ensures
        r == all_staged_ok(staged@),
{
    let mut i: usize = 0;
    while i < staged.len()
        invariant
            i <= staged.len(),
            forall|k: int| 0 <= k < i ==> staged_ok(#[trigger] staged[k]),
        decreases staged.len() - i,
    {
        if !check_staged(&staged[i]) {
            assert(!staged_ok(staged@[i as int]));
            return false;
        }
        i += 1;
    }
    true
}

/// Counts of what objects add, in a width that none of them exceeds.
struct Sums {
    isecs: u128,
    entries: u128,
    records: u128,
    cies: u128,
    fdes: u128,
    globals: u128,
}

fn sum_all(staged: &Vec<StagedObject>) -> (r: Sums)
    ensures
        ({
            let t = totals(staged@, staged.len() as int);
            &&& r.isecs == t.isecs
            &&& r.entries == t.entries
            &&& r.records == t.records
            &&& r.cies == t.cies
            &&& r.fdes == t.fdes
            &&& r.globals == globals_before(staged@, staged.len() as int)
        }),
        r.isecs <= 0xffff_ffff_ffff_ffff * 0xffff_ffff_ffff_ffff,
        r.entries <= 0xffff_ffff_ffff_ffff * 0xffff_ffff_ffff_ffff,
        r.records <= 0xffff_ffff_ffff_ffff * 0xffff_ffff_ffff_ffff,
        r.cies <= 0xffff_ffff_ffff_ffff * 0xffff_ffff_ffff_ffff,
        r.fdes <= 0xffff_ffff_ffff_ffff * 0xffff_ffff_ffff_ffff,
{
    let mut r = Sums { isecs: 0, entries: 0, records: 0, cies: 0, fdes: 0, globals: 0 };
    let mut n: usize = 0;
    while n < staged.len()
        invariant
            n <= staged.len(),
            r.isecs == totals(staged@, n as int).isecs,
            r.entries == totals(staged@, n as int).entries,
            r.records == totals(staged@, n as int).records,
            r.cies == totals(staged@, n as int).cies,
            r.fdes == totals(staged@, n as int).fdes,
            r.globals == globals_before(staged@, n as int),
            r.isecs <= n * usize::MAX,
            r.entries <= n * usize::MAX,
            r.records <= n * usize::MAX,
            r.cies <= n * usize::MAX,
            r.fdes <= n * usize::MAX,
            r.globals <= n * usize::MAX,
        decreases staged.len() - n,
    {
        assert((n + 1) * usize::MAX == n * usize::MAX + usize::MAX) by (nonlinear_arith);
        assert((n + 1) * usize::MAX <= 0xffff_ffff_ffff_ffff * 0xffff_ffff_ffff_ffff)
            by (nonlinear_arith)
            requires
                n + 1 <= 0xffff_ffff_ffff_ffff,
                usize::MAX <= 0xffff_ffff_ffff_ffff,
        ;
        let st: &StagedObject = &staged[n];
        let g: usize = count_globals(&st.nlists);
        r.isecs = r.isecs + st.isecs.len() as u128;
        r.entries = r.entries + st.nlists.len() as u128;
        r.records = r.records + st.unwind.len() as u128;
        r.cies = r.cies + st.cies.len() as u128;
        r.fdes = r.fdes + st.fdes.len() as u128;
        r.globals = r.globals + g as u128;
        n += 1;
    }
    assert(n * usize::MAX <= 0xffff_ffff_ffff_ffff * 0xffff_ffff_ffff_ffff) by (nonlinear_arith)
        requires
            n <= 0xffff_ffff_ffff_ffff,
            usize::MAX <= 0xffff_ffff_ffff_ffff,
    ;
    r
}

fn empty_object() -> StagedObject {
    StagedObject {
        name: Vec::new(),
        parent: None,
        alive: false,
        hidden: false,
        priority: 0,
        sect_hdrs: Vec::new(),
        linker_options: Vec::new(),
        isecs: Vec::new(),
        subsecs: Vec::new(),
        nlists: Vec::new(),
        sym_names: Vec::new(),
        sym_hashes: Vec::new(),
        unwind: Vec::new(),
        cies: Vec::new(),
        fdes: Vec::new(),
        objc_image_info: None,
        has_debug_info: false,
        dice: Vec::new(),
        loh: Vec::new(),
    }
}

fn copy_ids(ids: &Vec<u32>, from: usize, to: usize) -> (r: Vec<u32>)
    requires
        from <= to <= ids.len(),
    ensures
        r@ == ids@.subrange(from as int, to as int),
{
    let mut r: Vec<u32> = Vec::new();
    let mut i: usize = from;
    while i < to
        invariant
            from <= i <= to <= ids.len(),
            r@ == ids@.subrange(from as int, i as int),
        decreases to - i,
    {
        r.push(ids[i]);
        assert(ids@.subrange(from as int, i + 1) =~= ids@.subrange(from as int, i as int).push(
            ids@[i as int],
        ));
        i += 1;
    }
    r
}

/// What inputs are after the first `n` objects were appended.
pub open spec fn all_appended(
    before: Inputs,
    x: Inputs,
    staged: Seq<StagedObject>,
    ids: Seq<u32>,
    n: int,
) -> bool {
    let a = arena_of(before);
    &&& arena_of(x) == with_objects(a, staged, ids, n)
    &&& x.objs.len() == before.objs.len() + n
    &&& x.objs@.take(before.objs.len() as int) == before.objs@
    &&& forall|i: int|
        0 <= i < n ==> is_object(
            #[trigger] x.objs[before.objs.len() + i],
            staged[i],
            with_objects(a, staged, ids, i).isecs.len() as int,
            object_syms(with_objects(a, staged, ids, i), staged[i], Some(ids_of(staged, ids, i))),
        )
    &&& x.synthetic_hdrs == before.synthetic_hdrs
    &&& before.symtab.syms.len() <= x.symtab.syms.len()
    &&& x.symtab.syms@.take(before.symtab.syms.len() as int) == before.symtab.syms@
    &&& x.symtab.fresh_from(before.symtab.syms.len() as int)
}

proof fn lemma_step(
    start: Inputs,
    mid: Inputs,
    x: Inputs,
    staged: Seq<StagedObject>,
    ids: Seq<u32>,
    n: int,
)
    requires
        0 <= n < staged.len(),
        all_appended(start, mid, staged, ids, n),
        appended(mid, x, staged[n], Some(ids_of(staged, ids, n))),
        mid.symtab.syms.len() <= x.symtab.syms.len(),
    ensures
        all_appended(start, x, staged, ids, n + 1),
{
    let a = arena_of(start);
    let nobj = start.objs.len() as int;
    let nsym = start.symtab.syms.len() as int;
    assert(crate::input_sections::isec_views(mid.isecs@).len() == mid.isecs.len());
    assert(x.objs@.take(nobj) =~= start.objs@) by {
        assert forall|i: int| 0 <= i < nobj implies x.objs@[i] == start.objs@[i] by {
            assert(x.objs@.take(mid.objs.len() as int)[i] == mid.objs@[i]);
            assert(mid.objs@.take(nobj)[i] == start.objs@[i]);
        }
    }
    assert forall|i: int| 0 <= i < n + 1 implies is_object(
        #[trigger] x.objs[nobj + i],
        staged[i],
        with_objects(a, staged, ids, i).isecs.len() as int,
        object_syms(with_objects(a, staged, ids, i), staged[i], Some(ids_of(staged, ids, i))),
    ) by {
        if i < n {
            assert(x.objs@.take(mid.objs.len() as int)[nobj + i] == mid.objs@[nobj + i]);
            assert(mid.objs[nobj + i] == x.objs[nobj + i]);
        }
    }
    assert(x.symtab.syms@.take(nsym) =~= start.symtab.syms@) by {
        assert forall|i: int| 0 <= i < nsym implies x.symtab.syms@[i] == start.symtab.syms@[i] by {
            assert(x.symtab.syms@.take(mid.symtab.syms.len() as int)[i] == mid.symtab.syms@[i]);
            assert(mid.symtab.syms@.take(nsym)[i] == start.symtab.syms@[i]);
        }
    }
    assert forall|i: int| nsym <= i < x.symtab.syms.len() implies (#[trigger] x.symtab.syms[i])
        == crate::symbol::Symbol::fresh(x.symtab.syms[i].name) by {
        if i < mid.symtab.syms.len() {
            assert(x.symtab.syms@.take(mid.symtab.syms.len() as int)[i] == mid.symtab.syms@[i]);
            assert(mid.symtab.syms[i] == crate::symbol::Symbol::fresh(mid.symtab.syms[i].name));
        }
    }
}

/// Appends a batch of staged objects, whose global names were interned in
/// advance: one id for each global entry, in order. The result is exactly
/// that of appending one object after the other. Nothing changes when it
/// fails.
pub fn integrate_objects(x: &mut Inputs, staged: Vec<StagedObject>, ids: &Vec<u32>) -> (r: Result<
    (),
    IntegrateError,
>)
    requires
        old(x).wf(),
        old(x).fdes_exist(),
        old(x).symtab.wf(),
    ensures
        final(x).wf(),
        final(x).fdes_exist(),
        final(x).symtab.wf(),
        match r {
            Ok(()) => {
                &&& all_staged_ok(staged@)
                &&& all_ids_ok(*old(x), staged@, ids@)
                &&& all_have_room(*old(x), staged@)
                &&& all_appended(*old(x), *final(x), staged@, ids@, staged.len() as int)
            },
            Err(e) => {
                &&& *final(x) == *old(x)
                &&& e == if !all_staged_ok(staged@) {
                    IntegrateError::BadReference
                } else if !all_ids_ok(*old(x), staged@, ids@) {
                    IntegrateError::BadSymbols
                } else {
                    IntegrateError::TooMany
                }
                &&& !(all_staged_ok(staged@) && all_ids_ok(*old(x), staged@, ids@)
                    && all_have_room(*old(x), staged@))
            },
        },
{
    if !check_all_staged(&staged) {
        return Err(IntegrateError::BadReference);
    }
    let sums: Sums = sum_all(&staged);
    if ids.len() as u128 != sums.globals || !check_ids(ids, x.symtab.syms.len()) {
        return Err(IntegrateError::BadSymbols);
    }
    if !(x.objs.len() as u128 + (staged.len() as u128) < 0xffff_ffff && x.isecs.len() as u128
        + sums.isecs < 0x8000_0000 && x.symtab.syms.len() as u128 + sums.entries < 0xffff_ffff
        && x.unwind_records.len() as u128 + sums.records < 0xffff_ffff && x.cies.len() as u128
        + sums.cies < 0xffff_ffff && x.fdes.len() as u128 + sums.fdes < 0xffff_ffff) {
        return Err(IntegrateError::TooMany);
    }
    let ghost start = *x;
    let ghost s0 = staged@;
    let ghost total = staged.len() as int;
    let mut staged = staged;
    let mut used: usize = 0;
    let mut n: usize = 0;
    proof {
        assert(x.objs@.take(x.objs.len() as int) =~= x.objs@);
        assert(x.symtab.syms@.take(x.symtab.syms.len() as int) =~= x.symtab.syms@);
    }
    while n < staged.len()
        invariant
            n <= staged.len(),
            staged.len() == total,
            total == s0.len(),
            all_staged_ok(s0),
            all_ids_ok(start, s0, ids@),
            all_have_room(start, s0),
            forall|i: int| n <= i < total ==> #[trigger] staged[i] == s0[i],
            used == globals_before(s0, n as int),
            x.wf(),
            x.fdes_exist(),
            x.symtab.wf(),
            all_appended(start, *x, s0, ids@, n as int),
            x.isecs.len() == start.isecs.len() + totals(s0, n as int).isecs,
            x.symtab.syms.len() <= start.symtab.syms.len() + totals(s0, n as int).entries,
            x.unwind_records.len() == start.unwind_records.len() + totals(s0, n as int).records,
            x.cies.len() == start.cies.len() + totals(s0, n as int).cies,
            x.fdes.len() == start.fdes.len() + totals(s0, n as int).fdes,
        decreases total - n,
    {
        let mut st: StagedObject = empty_object();
        core::mem::swap(&mut st, &mut staged[n]);
        assert(st == s0[n as int]);
        assert(staged_ok(s0[n as int]));
        proof {
            lemma_totals_grow(s0, n + 1, total);
            lemma_globals_grow(s0, n as int, n + 1);
            lemma_globals_grow(s0, n + 1, total);
        }
        let g: usize = count_globals(&st.nlists);
        assert(globals_before(s0, n + 1) == used + g);
        assert(used + g <= ids.len());
        let own: Vec<u32> = copy_ids(ids, used, used + g);
        assert(own@ == ids_of(s0, ids@, n as int));
        let ghost mid = *x;
        assert(pre_ok(*x, st, Some(own@))) by {
            assert forall|i: int| 0 <= i < own.len() implies (#[trigger] own[i])
                < x.symtab.syms.len() by {
                assert(own@[i] == ids@[used + i]);
            }
        }
        append_object(x, st, Some(&own));
        proof {
            lemma_step(start, mid, *x, s0, ids@, n as int);
            lemma_lens(mid, *x, s0[n as int], Some(own@));
        }
        used = used + g;
        n += 1;
    }
    Ok(())
}

proof fn lemma_assigned_len(
    t: TableView,
    nlists: Seq<NList>,
    names: Seq<Seq<u8>>,
    pre: Option<Seq<u32>>,
    n: int,
)
    requires
        0 <= n,
    ensures
        t.names.len() <= assigned(t, nlists, names, pre, n).0.names.len() <= t.names.len() + n,
    decreases n,
{
    if n > 0 {
        lemma_assigned_len(t, nlists, names, pre, n - 1);
    }
}

proof fn lemma_lens(mid: Inputs, x: Inputs, st: StagedObject, pre: Option<Seq<u32>>)
    requires
        arena_of(x) == with_object(arena_of(mid), st, pre),
    ensures
        x.isecs.len() == mid.isecs.len() + st.isecs.len(),
        mid.symtab.syms.len() <= x.symtab.syms.len() <= mid.symtab.syms.len() + st.nlists.len(),
        x.unwind_records.len() == mid.unwind_records.len() + st.unwind.len(),
        x.cies.len() == mid.cies.len() + st.cies.len(),
        x.fdes.len() == mid.fdes.len() + st.fdes.len(),
{
    let a = arena_of(mid);
    let b = arena_of(x);
    lemma_assigned_len(
        a.table,
        st.nlists@,
        bytes::views(st.sym_names@),
        pre,
        st.nlists.len() as int,
    );
    assert(b.isecs.len() == x.isecs.len());
    assert(b.table.names.len() == x.symtab.syms.len());
    assert(b.cies.len() == x.cies.len());
    assert(b.fdes.len() == x.fdes.len());
    assert(a.isecs.len() == mid.isecs.len());
    assert(a.table.names.len() == mid.symtab.syms.len());
    assert(a.cies.len() == mid.cies.len());
    assert(a.fdes.len() == mid.fdes.len());
}

/// A batch of one object is that object appended by itself, and a batch can
/// be cut anywhere: appending the objects in front first and the last one
/// then gives the same.
pub proof fn lemma_batch_is_one_by_one(
    a: ArenaView,
    staged: Seq<StagedObject>,
    ids: Seq<u32>,
    n: int,
)
    requires
        0 < n <= staged.len(),
    ensures
        with_objects(a, staged, ids, n) == with_object(
            with_objects(a, staged, ids, n - 1),
            staged[n - 1],
            Some(ids_of(staged, ids, n - 1)),
        ),
        n == 1 ==> with_objects(a, staged, ids, n) == with_object(
            a,
            staged[0],
            Some(ids.subrange(0, global_count(staged[0].nlists@, staged[0].nlists.len() as int))),
        ),
{
    reveal_with_fuel(with_objects, 2);
    reveal_with_fuel(globals_before, 2);
}

/// True when two objects are the same but for where their lists are kept.
pub open spec fn same_object(a: ObjectFile, b: ObjectFile) -> bool {
    &&& a == (ObjectFile { subsecs: a.subsecs, syms: a.syms, ..b })
    &&& a.subsecs@ == b.subsecs@
    &&& a.syms@ == b.syms@
}

/// True when two inputs hold the same objects, subsections, unwind records,
/// frames and symbols, in the same order and under the same numbers.
pub open spec fn same_inputs(a: Inputs, b: Inputs) -> bool {
    &&& arena_of(a) == arena_of(b)
    &&& a.objs.len() == b.objs.len()
    &&& forall|i: int| 0 <= i < a.objs.len() ==> same_object(#[trigger] a.objs[i], b.objs[i])
    &&& a.symtab.syms.len() == b.symtab.syms.len()
    &&& forall|i: int|
        0 <= i < a.symtab.syms.len() ==> (#[trigger] a.symtab.syms[i])@ == b.symtab.syms[i]@
    &&& a.synthetic_hdrs == b.synthetic_hdrs
}

proof fn lemma_chain(xs: Seq<Inputs>, staged: Seq<StagedObject>, ids: Seq<u32>, n: int)
    requires
        0 <= n <= staged.len(),
        xs.len() == staged.len() + 1,
        forall|i: int|
            0 <= i < staged.len() ==> appended(
                #[trigger] xs[i],
                xs[i + 1],
                staged[i],
                Some(ids_of(staged, ids, i)),
            ),
    ensures
        all_appended(xs[0], xs[n], staged, ids, n),
    decreases n,
{
    if n > 0 {
        lemma_chain(xs, staged, ids, n - 1);
        assert(appended(xs[n - 1], xs[n], staged[n - 1], Some(ids_of(staged, ids, n - 1))));
        lemma_lens(xs[n - 1], xs[n], staged[n - 1], Some(ids_of(staged, ids, n - 1)));
        lemma_step(xs[0], xs[n - 1], xs[n], staged, ids, n - 1);
    } else {
        assert(xs[0].objs@.take(xs[0].objs.len() as int) =~= xs[0].objs@);
        assert(xs[0].symtab.syms@.take(xs[0].symtab.syms.len() as int) =~= xs[0].symtab.syms@);
    }
}

/// Appending a batch is appending its objects in turn: where `xs` are the
/// inputs before the first and after each of them, the batch leaves the same
/// inputs as the last.
pub proof fn lemma_batch_is_a_chain(
    xs: Seq<Inputs>,
    batch: Inputs,
    staged: Seq<StagedObject>,
    ids: Seq<u32>,
)
    requires
        xs.len() == staged.len() + 1,
        forall|i: int|
            0 <= i < staged.len() ==> appended(
                #[trigger] xs[i],
                xs[i + 1],
                staged[i],
                Some(ids_of(staged, ids, i)),
            ),
        all_appended(xs[0], batch, staged, ids, staged.len() as int),
    ensures
        same_inputs(xs.last(), batch),
{
    let n = staged.len() as int;
    let x = xs.last();
    lemma_chain(xs, staged, ids, n);
    let nobj = xs[0].objs.len() as int;
    let nsym = xs[0].symtab.syms.len() as int;
    assert forall|i: int| 0 <= i < x.objs.len() implies same_object(
        #[trigger] x.objs[i],
        batch.objs[i],
    ) by {
        if i < nobj {
            assert(x.objs@.take(nobj)[i] == x.objs@[i]);
            assert(batch.objs@.take(nobj)[i] == batch.objs@[i]);
        } else {
            let k = i - nobj;
            assert(x.objs[nobj + k] == x.objs[i]);
            assert(batch.objs[nobj + k] == batch.objs[i]);
        }
    }
    assert(table_of(x.symtab).names.len() == x.symtab.syms.len());
    assert(table_of(batch.symtab).names.len() == batch.symtab.syms.len());
    assert forall|i: int| 0 <= i < x.symtab.syms.len() implies (#[trigger] x.symtab.syms[i])@
        == batch.symtab.syms[i]@ by {
        assert(table_of(x.symtab).names[i] == x.symtab.syms[i].name@);
        assert(table_of(batch.symtab).names[i] == batch.symtab.syms[i].name@);
        if i < nsym {
            assert(x.symtab.syms@.take(nsym)[i] == x.symtab.syms@[i]);
            assert(batch.symtab.syms@.take(nsym)[i] == batch.symtab.syms@[i]);
        }
    }
}

} // verus!
