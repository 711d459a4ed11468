//! Weak definitions: which ones stay inside the image, and which copies are
//! discarded.
use crate::args::Args;
use crate::input_files::{find_subsec, ObjectFile};
use crate::input_sections::{InputSection, NO_REPLACEMENT};
use crate::inputs::{resolve_isec, Inputs};
use crate::macho::consts::{MH_EXECUTE, N_SECT, N_WEAK_DEF, N_WEAK_REF};
use crate::macho::NList;
use crate::symbol::{Origin, SymFlags, Symbol};
use crate::util::glob;
use vstd::prelude::*;

verus! {

/// True for an entry that defines a symbol weakly.
pub open spec fn is_weak_entry(e: NList) -> bool {
    !e.stab() && e.external() && e.kind() == N_SECT && e.n_desc & N_WEAK_DEF != 0
}

fn check_weak_entry(e: &NList) -> (r: bool)
    ensures
        r == is_weak_entry(*e),
{
    !e.is_stab() && e.is_extern() && e.n_type() == N_SECT && e.n_desc & N_WEAK_DEF != 0
}

/// What the first `n` entries of an object say of the symbols: whether one
/// defines it weakly, and whether one pins it.
pub open spec fn obj_marks(x: Inputs, o: int, n: int, before: Seq<(bool, bool)>) -> Seq<
    (bool, bool),
>
    decreases n,
{
    if n <= 0 {
        before
    } else {
        let m = obj_marks(x, o, n - 1, before);
        let obj = x.objs[o];
        let e = obj.nlists[n - 1];
        let id = obj.syms[n - 1] as int;
        if is_weak_entry(e) {
            m.update(id, (true, m[id].1 || e.n_desc & N_WEAK_REF == 0))
        } else {
            m
        }
    }
}

/// What the first `n` objects say.
pub open spec fn marks_to(x: Inputs, n: int) -> Seq<(bool, bool)>
    decreases n,
{
    if n <= 0 {
        Seq::new(x.symtab.syms@.len(), |i: int| (false, false))
    } else {
        let before = marks_to(x, n - 1);
        if x.objs[n - 1].is_alive {
            obj_marks(x, n - 1, x.objs[n - 1].nlists.len() as int, before)
        } else {
            before
        }
    }
}

/// True when a symbol is hidden: all its weak definitions say that they can
/// be, and no list asks for its export.
pub open spec fn is_hidden(args: Args, s: Symbol, mark: (bool, bool)) -> bool {
    &&& mark.0
    &&& !mark.1
    &&& s.flags.is_weak_def
    &&& s.flags.is_extern
    &&& s.defined_by() is Obj
    &&& !(args.exported_symbols matches Some(list) && crate::util::glob::any_matches(
        crate::util::bytes::views(list@),
        s.name@,
    ))
}

/// A symbol after the decision.
pub open spec fn hidden_if(args: Args, s: Symbol, mark: (bool, bool)) -> Symbol {
    if is_hidden(args, s, mark) {
        Symbol { flags: SymFlags { is_private_extern: true, ..s.flags }, ..s }
    } else {
        s
    }
}

/// All symbols after the decision. Only an executable hides its symbols.
pub open spec fn after_hiding(args: Args, x: Inputs) -> Seq<Symbol> {
    if args.sw.output_type != MH_EXECUTE {
        x.symtab.syms@
    } else {
        let m = marks_to(x, x.objs.len() as int);
        Seq::new(x.symtab.syms@.len(), |i: int| hidden_if(args, x.symtab.syms[i], m[i]))
    }
}

fn mark_obj(x: &Inputs, o: usize, m: &mut Vec<(bool, bool)>)
    requires
        x.wf(),
        o < x.objs.len(),
        old(m).len() == x.symtab.syms.len(),
    ensures
        final(m)@ == obj_marks(*x, o as int, x.objs[o as int].nlists.len() as int, old(m)@),
        final(m).len() == old(m).len(),
{
    let ghost before = m@;
    let obj: &ObjectFile = &x.objs[o];
    let mut n: usize = 0;
    while n < obj.nlists.len()
        invariant
            x.wf(),
            o < x.objs.len(),
            *obj == x.objs[o as int],
            n <= obj.nlists.len(),
            m.len() == x.symtab.syms.len(),
            m@ == obj_marks(*x, o as int, n as int, before),
        decreases obj.nlists.len() - n,
    {
        proof {
            assert(x.obj_ok(x.objs[o as int]));
        }
        let e: NList = obj.nlists[n];
        if check_weak_entry(&e) {
            let id: usize = obj.syms[n] as usize;
            let pins: bool = m[id].1 || e.n_desc & N_WEAK_REF == 0;
            m.set(id, (true, pins));
        }
        n += 1;
    }
}

fn mark_all(x: &Inputs) -> (m: Vec<(bool, bool)>)
    requires
        x.wf(),
    ensures
        m@ == marks_to(*x, x.objs.len() as int),
        m.len() == x.symtab.syms.len(),
{
    let mut m: Vec<(bool, bool)> = Vec::new();
    while m.len() < x.symtab.syms.len()
        invariant
            m.len() <= x.symtab.syms.len(),
            forall|i: int| 0 <= i < m.len() ==> #[trigger] m[i] == (false, false),
        decreases x.symtab.syms.len() - m.len(),
    {
        m.push((false, false));
    }
    assert(m@ =~= marks_to(*x, 0));
    let mut n: usize = 0;
    while n < x.objs.len()
        invariant
            x.wf(),
            n <= x.objs.len(),
            m.len() == x.symtab.syms.len(),
            m@ == marks_to(*x, n as int),
        decreases x.objs.len() - n,
    {
        if x.objs[n].is_alive {
            mark_obj(x, n, &mut m);
        }
        n += 1;
    }
    m
}

/// Hides weak definitions of an executable whose address nobody observes:
/// those all of whose live copies say so.
pub fn auto_hide_weak_defs(args: &Args, x: &mut Inputs)
    requires
        old(x).wf(),
    ensures
        final(x).symtab.syms@ == after_hiding(*args, *old(x)),
        *final(x) == (Inputs { symtab: final(x).symtab, ..*old(x) }),
        final(x).symtab.shards == old(x).symtab.shards,
        final(x).wf(),
{
    if args.sw.output_type != MH_EXECUTE {
        return ;
    }
    let ghost start = *x;
    let m: Vec<(bool, bool)> = mark_all(x);
    let mut n: usize = 0;
    while n < x.symtab.syms.len()
        invariant
            n <= x.symtab.syms.len(),
            m@ == marks_to(start, start.objs.len() as int),
            m.len() == start.symtab.syms.len(),
            x.symtab.syms.len() == start.symtab.syms.len(),
            *x == (Inputs { symtab: x.symtab, ..start }),
            x.symtab.shards == start.symtab.shards,
            forall|i: int|
                0 <= i < n ==> #[trigger] x.symtab.syms[i] == hidden_if(
                    *args,
                    start.symtab.syms[i],
                    m[i],
                ),
            forall|i: int|
                n <= i < x.symtab.syms.len() ==> #[trigger] x.symtab.syms[i]
                    == start.symtab.syms[i],
        decreases x.symtab.syms.len() - n,
    {
        let s: &Symbol = &x.symtab.syms[n];
        let listed: bool = match &args.exported_symbols {
            Some(list) => glob::match_any(list, s.name.as_slice()),
            None => false,
        };
        let from_obj: bool = match s.origin() {
            Origin::Obj(_) => true,
            _ => false,
        };
        let hide: bool = m[n].0 && !m[n].1 && s.flags.is_weak_def && s.flags.is_extern && from_obj
            && !listed;
        if hide {
            x.symtab.syms[n].flags.is_private_extern = true;
        }
        n += 1;
    }
    assert(x.symtab.syms@ =~= after_hiding(*args, start));
    proof {
        assert forall|i: int| 0 <= i < x.symtab.syms.len() implies x.sym_ok(
            #[trigger] x.symtab.syms[i],
        ) by {
            assert(start.sym_ok(start.symtab.syms[i]));
        }
        assert forall|i: int| 0 <= i < start.isecs.len() implies crate::inputs::same_part(
            start.isecs[i],
            #[trigger] x.isecs[i],
        ) && (x.isecs[i].replacement == NO_REPLACEMENT || x.isecs[i].replacement
            < x.isecs.len()) by {
            assert(start.isec_ok(start.isecs[i]));
        }
        crate::inputs::lemma_wf_grown(start, *x);
    }
}

/// A copy of a weak definition that lost: its subsection and the winner's,
/// with the symbol's offset in each.
#[derive(Clone, Copy, Debug, PartialEq, Eq)]
pub struct Copied {
    pub loser: usize,
    pub winner: usize,
    pub off: u64,
    pub value: u64,
}

/// The losing copy that the `k`th entry of an object stands for.
pub open spec fn copy_at(x: Inputs, o: int, k: int) -> Option<Copied> {
    let obj = x.objs[o];
    let e = obj.nlists[k];
    let s = x.symtab.syms[obj.syms[k] as int];
    match s.defined_by() {
        Origin::Obj(owner) => if !is_weak_entry(e) || owner == o {
            None
        } else {
            match s.section() {
                Some(w) => match crate::input_files::subsec_at(
                    x.isecs@,
                    obj.subsecs@,
                    e.n_value,
                ) {
                    Some((l, off)) => Some(
                        Copied { loser: l, winner: w as usize, off, value: s.value },
                    ),
                    None => None,
                },
                None => None,
            }
        },
        _ => None,
    }
}

/// The losing copies among the first `n` entries of an object.
pub open spec fn obj_copies(x: Inputs, o: int, n: int) -> Seq<Copied>
    decreases n,
{
    if n <= 0 {
        Seq::empty()
    } else {
        match copy_at(x, o, n - 1) {
            Some(c) => obj_copies(x, o, n - 1).push(c),
            None => obj_copies(x, o, n - 1),
        }
    }
}

/// The losing copies of the first `n` objects.
pub open spec fn copies_to(x: Inputs, n: int) -> Seq<Copied>
    decreases n,
{
    if n <= 0 {
        Seq::empty()
    } else if x.objs[n - 1].is_alive {
        copies_to(x, n - 1) + obj_copies(x, n - 1, x.objs[n - 1].nlists.len() as int)
    } else {
        copies_to(x, n - 1)
    }
}

/// The subsections with one more losing copy redirected to the winner: only
/// one of the same shape is.
pub open spec fn with_copy(isecs: Seq<InputSection>, c: Copied) -> Seq<InputSection> {
    let w = crate::inputs::survivor(isecs, c.winner as int);
    let l = crate::inputs::survivor(isecs, c.loser as int);
    if l == w || c.off != c.value || isecs[l].size != isecs[w].size || isecs[l].replacement
        != NO_REPLACEMENT {
        isecs
    } else {
        isecs.update(l, InputSection { replacement: w as u32, ..isecs[l] })
    }
}

/// The subsections with the first `n` losing copies redirected.
pub open spec fn coalesced(isecs: Seq<InputSection>, copies: Seq<Copied>, n: int) -> Seq<
    InputSection,
>
    decreases n,
{
    if n <= 0 {
        isecs
    } else {
        with_copy(coalesced(isecs, copies, n - 1), copies[n - 1])
    }
}

/// True when copies are of existing subsections.
pub open spec fn copies_exist(copies: Seq<Copied>, n: int) -> bool {
    forall|i: int|
        0 <= i < copies.len() ==> (#[trigger] copies[i]).loser < n && copies[i].winner < n
}

fn push_copies(x: &Inputs, o: usize, out: &mut Vec<Copied>)
    requires
        x.wf(),
        super::fixups::subsecs_sorted(*x),
        o < x.objs.len(),
        copies_exist(old(out)@, x.isecs.len() as int),
    ensures
        final(out)@ == old(out)@ + obj_copies(
            *x,
            o as int,
            x.objs[o as int].nlists.len() as int,
        ),
        copies_exist(final(out)@, x.isecs.len() as int),
{
    let ghost start = out@;
    let obj: &ObjectFile = &x.objs[o];
    assert(start + Seq::<Copied>::empty() =~= start);
    let mut n: usize = 0;
    while n < obj.nlists.len()
        invariant
            x.wf(),
            super::fixups::subsecs_sorted(*x),
            o < x.objs.len(),
            *obj == x.objs[o as int],
            n <= obj.nlists.len(),
            out@ == start + obj_copies(*x, o as int, n as int),
            copies_exist(out@, x.isecs.len() as int),
        decreases obj.nlists.len() - n,
    {
        proof {
            assert(x.obj_ok(x.objs[o as int]));
            assert(x.sym_ok(x.symtab.syms[obj.syms[n as int] as int]));
        }
        let ghost head = obj_copies(*x, o as int, n as int);
        let e: NList = obj.nlists[n];
        let s: &Symbol = &x.symtab.syms[obj.syms[n] as usize];
        let mut found: Option<Copied> = None;
        if let Origin::Obj(owner) = s.origin() {
            if check_weak_entry(&e) && owner as usize != o {
                if let Some(w) = s.isec() {
                    if let Some((l, off)) = find_subsec(
                        x.isecs.as_slice(),
                        obj.subsecs.as_slice(),
                        e.n_value,
                    ) {
                        found = Some(Copied { loser: l, winner: w as usize, off, value: s.value });
                    }
                }
            }
        }
        assert(found == copy_at(*x, o as int, n as int));
        if let Some(c) = found {
            out.push(c);
            assert((start + head).push(c) =~= start + head.push(c));
        }
        n += 1;
    }
}

/// What coalescing keeps of a subsection.
pub open spec fn only_redirected(a: Seq<InputSection>, b: Seq<InputSection>) -> bool {
    &&& a.len() == b.len()
    &&& forall|i: int|
        0 <= i < a.len() ==> #[trigger] b[i] == (InputSection {
            replacement: b[i].replacement,
            ..a[i]
        }) && (b[i].replacement == NO_REPLACEMENT || b[i].replacement < a.len())
}

/// Discards the losing copies of weak definitions: each losing subsection is
/// redirected to the winner's, as far as the definition stands at the same
/// offset in both and they have the same size.
pub fn coalesce_weak_defs(x: &mut Inputs)
    requires
        old(x).wf(),
        super::fixups::subsecs_sorted(*old(x)),
    ensures
        ({
            let copies = copies_to(*old(x), old(x).objs.len() as int);
            final(x).isecs@ == coalesced(old(x).isecs@, copies, copies.len() as int)
        }),
        *final(x) == (Inputs { isecs: final(x).isecs, ..*old(x) }),
        final(x).wf(),
        only_redirected(old(x).isecs@, final(x).isecs@),
{
    let ghost start = *x;
    let mut copies: Vec<Copied> = Vec::new();
    assert(copies@ =~= Seq::empty());
    let mut n: usize = 0;
    while n < x.objs.len()
        invariant
            x.wf(),
            *x == start,
            super::fixups::subsecs_sorted(*x),
            n <= x.objs.len(),
            copies@ == copies_to(start, n as int),
            copies_exist(copies@, x.isecs.len() as int),
        decreases x.objs.len() - n,
    {
        if x.objs[n].is_alive {
            push_copies(x, n, &mut copies);
        }
        n += 1;
    }
    proof {
        assert forall|i: int| 0 <= i < x.isecs.len() implies #[trigger] x.isecs@[i] == (
        InputSection { replacement: x.isecs@[i].replacement, ..start.isecs@[i] }) && (
        x.isecs@[i].replacement == NO_REPLACEMENT || x.isecs@[i].replacement < start.isecs.len()) by {
            assert(start.isec_ok(start.isecs[i]));
        }
    }
    let mut k: usize = 0;
    while k < copies.len()
        invariant
            start.wf(),
            *x == (Inputs { isecs: x.isecs, ..start }),
            only_redirected(start.isecs@, x.isecs@),
            copies_exist(copies@, start.isecs.len() as int),
            k <= copies.len(),
            x.isecs@ == coalesced(start.isecs@, copies@, k as int),
        decreases copies.len() - k,
    {
        let c: Copied = copies[k];
        assert(copies@[k as int].loser < start.isecs.len());
        proof {
            assert forall|i: int| 0 <= i < x.isecs.len() implies (
            #[trigger] x.isecs@[i]).replacement == NO_REPLACEMENT || x.isecs@[i].replacement
                < x.isecs.len() by {}
        }
        let w: usize = resolve_isec(&x.isecs, c.winner);
        let l: usize = resolve_isec(&x.isecs, c.loser);
        if l != w && c.off == c.value && x.isecs[l].size == x.isecs[w].size
            && x.isecs[l].replacement == NO_REPLACEMENT {
            let ghost before = x.isecs@;
            x.isecs[l].replacement = w as u32;
            assert(x.isecs@ =~= with_copy(before, c));
        }
        k += 1;
    }
    proof {
        assert forall|i: int| 0 <= i < start.isecs.len() implies crate::inputs::same_part(
            start.isecs[i],
            #[trigger] x.isecs[i],
        ) && (x.isecs[i].replacement == NO_REPLACEMENT || x.isecs[i].replacement
            < x.isecs.len()) by {
            assert(x.isecs@[i] == (InputSection {
                replacement: x.isecs@[i].replacement,
                ..start.isecs@[i]
            }));
        }
        assert forall|i: int| 0 <= i < x.symtab.syms.len() implies x.sym_ok(
            #[trigger] x.symtab.syms[i],
        ) by {
            assert(start.sym_ok(start.symtab.syms[i]));
        }
        crate::inputs::lemma_wf_grown(start, *x);
    }
}

/// A definition that an export list matches stays visible.
pub proof fn lemma_exports_stay(args: Args, x: Inputs, i: int)
    requires
        0 <= i < x.symtab.syms.len(),
        args.exported_symbols is Some,
        crate::util::glob::any_matches(
            crate::util::bytes::views(args.exported_symbols->0@),
            x.symtab.syms[i].name@,
        ),
    ensures
        after_hiding(args, x)[i] == x.symtab.syms[i],
{
}

} // verus!
