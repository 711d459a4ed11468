//! Range-extension thunks.
//!
//! A branch reaches only so far; a section larger than that needs islands
//! of trampolines. A thunk is placed after each batch of code, and a batch
//! never grows so large that its own thunk would fall out of reach.
use crate::arch::{Arch, RelocClass};
use crate::input_sections::{InputSection, IsecView, Reloc, UNPLACED, UNSET};
use crate::inputs::{resolve_isec, Inputs};
use crate::output_chunks::header::{Thunk, ThunkView};
use crate::symbol::{Origin, Symbol};
use crate::util::{self, bytes, find_place, find_position};
use vstd::prelude::*;

verus! {

/// A batch ends when it is this large.
pub const BATCH: u64 = 10_485_760;

/// No thunk is larger than this.
pub const MAX_THUNK: u64 = 1_048_576;

/// No thunk has as many entries as this.
pub const MAX_ENTRIES: u64 = 0x100_0000_0000_0000;

/// How far code in a batch may be from the end of the batch.
pub open spec fn budget<E: Arch>() -> int {
    E::info().branch_range / 2 - MAX_THUNK - BATCH
}

/// How far a branch is sure to reach.
pub open spec fn reach<E: Arch>() -> int {
    E::info().branch_range / 2 - MAX_THUNK
}

/// The sizes of the first `n` subsections with padding.
pub open spec fn padded_sizes(x: Inputs, ids: Seq<u32>, n: int) -> int
    decreases n,
{
    if n <= 0 {
        0
    } else {
        padded_sizes(x, ids, n - 1) + x.isecs[ids[n - 1] as int].size + 16
    }
}

/// An upper bound on a section's final size: every subsection with padding,
/// and a full thunk for each batch.
pub open spec fn size_bound(x: Inputs, ids: Seq<u32>) -> int {
    let n = padded_sizes(x, ids, ids.len() as int);
    n + (n / BATCH as int + 1) * MAX_THUNK
}

/// True when a symbol's definition is in the same output section and near
/// enough to a thunk at `thunk_off`, or lies ahead where everything is near
/// enough. `offs` says where subsections are.
pub open spec fn in_reach<E: Arch>(
    x: Inputs,
    osecs: Seq<u32>,
    offs: Seq<u64>,
    osec: u32,
    id: int,
    thunk_off: u64,
    forward: bool,
) -> bool {
    let sym = x.symtab.syms[id];
    match (sym.defined_by(), sym.section()) {
        (Origin::Obj(_), Some(i)) => {
            let t = crate::inputs::survivor(x.isecs@, i as int);
            osecs[t] == osec && if offs[t] != UNPLACED {
                thunk_off - (offs[t] + sym.value) < reach::<E>()
            } else {
                forward
            }
        },
        _ => false,
    }
}

/// The symbol of a relocation that gets a thunk entry: a branch whose target
/// may be out of reach.
pub open spec fn far_target<E: Arch>(
    x: Inputs,
    osecs: Seq<u32>,
    offs: Seq<u64>,
    id: int,
    k: int,
    thunk_off: u64,
    forward: bool,
) -> Option<u32> {
    let s = x.isecs[id];
    if s.obj == UNSET || E::class_of(s.relocs[k].r_type) != RelocClass::Branch {
        None
    } else {
        match x.target_sym(s.obj, s.relocs[k]) {
            Some(sym) if !in_reach::<E>(
                x,
                osecs,
                offs,
                osecs[id],
                sym as int,
                thunk_off,
                forward,
            ) => Some(sym),
            _ => None,
        }
    }
}

/// A relocation that gets a thunk entry: the subsection, the relocation's
/// index in it, and the symbol.
pub type FarBranch = (u32, usize, u32);

/// The relocations among the first `k` of a subsection that get an entry.
pub open spec fn far_in<E: Arch>(
    x: Inputs,
    osecs: Seq<u32>,
    offs: Seq<u64>,
    id: u32,
    k: int,
    thunk_off: u64,
    forward: bool,
) -> Seq<FarBranch>
    decreases k,
{
    if k <= 0 {
        Seq::empty()
    } else {
        let before = far_in::<E>(x, osecs, offs, id, k - 1, thunk_off, forward);
        match far_target::<E>(x, osecs, offs, id as int, k - 1, thunk_off, forward) {
            Some(sym) => before.push((id, (k - 1) as usize, sym)),
            None => before,
        }
    }
}

/// The relocations of the subsections `first..n` that get an entry.
pub open spec fn far_branches<E: Arch>(
    x: Inputs,
    osecs: Seq<u32>,
    offs: Seq<u64>,
    ids: Seq<u32>,
    first: int,
    n: int,
    thunk_off: u64,
    forward: bool,
) -> Seq<FarBranch>
    decreases n - first,
{
    if n <= first {
        Seq::empty()
    } else {
        let id = ids[n - 1];
        far_branches::<E>(x, osecs, offs, ids, first, n - 1, thunk_off, forward) + far_in::<E>(
            x,
            osecs,
            offs,
            id,
            x.isecs[id as int].relocs.len() as int,
            thunk_off,
            forward,
        )
    }
}

/// The symbols of the first `n` far branches, each once, in order of first
/// appearance.
pub open spec fn entry_syms(far: Seq<FarBranch>, n: int) -> Seq<u32>
    decreases n,
{
    if n <= 0 {
        Seq::empty()
    } else {
        let before = entry_syms(far, n - 1);
        if before.contains(far[n - 1].2) {
            before
        } else {
            before.push(far[n - 1].2)
        }
    }
}

/// The thunk entries that far branches get, as (subsection, relocation,
/// offset of the entry).
pub open spec fn entries_of(
    far: Seq<FarBranch>,
    thunk_off: u64,
    size: u64,
    n: int,
) -> Seq<(u32, usize, u32)>
    decreases n,
{
    if n <= 0 {
        Seq::empty()
    } else {
        let f = far[n - 1];
        let at = util::position_of(entry_syms(far, n), f.2, 0);
        entries_of(far, thunk_off, size, n - 1).push(
            (f.0, f.1, bytes::word32(thunk_off + at * size)),
        )
    }
}

fn is_in_reach<E: Arch>(
    x: &Inputs,
    osecs: &Vec<u32>,
    offs: &Vec<u64>,
    osec: u32,
    id: u32,
    thunk_off: u64,
    forward: bool,
) -> (r: bool)
    requires
        x.wf(),
        offs.len() == x.isecs.len(),
        osecs.len() == x.isecs.len(),
        id < x.symtab.syms.len(),
    ensures
        r == in_reach::<E>(*x, osecs@, offs@, osec, id as int, thunk_off, forward),
{
    proof {
        crate::inputs::lemma_wf_redirects(*x);
        assert(x.sym_ok(x.symtab.syms[id as int]));
    }
    let sym: &Symbol = &x.symtab.syms[id as usize];
    match (sym.origin(), sym.isec()) {
        (Origin::Obj(_), Some(i)) => {
            let at: usize = resolve_isec(&x.isecs, i as usize);
            if osecs[at] != osec {
                return false;
            }
            if offs[at] != UNPLACED {
                let range: u64 = E::get_info().branch_range / 2 - MAX_THUNK;
                let to: u128 = offs[at] as u128 + sym.value as u128;
                (thunk_off as u128) < to + range as u128
            } else {
                forward
            }
        },
        _ => false,
    }
}

fn find_far<E: Arch>(
    x: &Inputs,
    osecs: &Vec<u32>,
    offs: &Vec<u64>,
    ids: &Vec<u32>,
    first: usize,
    n: usize,
    thunk_off: u64,
    forward: bool,
) -> (r: Vec<FarBranch>)
    requires
        x.wf(),
        offs.len() == x.isecs.len(),
        osecs.len() == x.isecs.len(),
        first <= n <= ids.len(),
        forall|i: int| 0 <= i < ids.len() ==> (#[trigger] ids[i]) < x.isecs.len(),
    ensures
        r@ == far_branches::<E>(
            *x,
            osecs@,
            offs@,
            ids@,
            first as int,
            n as int,
            thunk_off,
            forward,
        ),
        forall|i: int|
            0 <= i < r.len() ==> (#[trigger] r[i]).0 < x.isecs.len() && r[i].1
                < x.isecs[r[i].0 as int].relocs.len(),
{
    let mut out: Vec<FarBranch> = Vec::new();
    let mut b: usize = first;
    while b < n
        invariant
            x.wf(),
            offs.len() == x.isecs.len(),
            osecs.len() == x.isecs.len(),
            first <= b <= n <= ids.len(),
            forall|i: int| 0 <= i < ids.len() ==> (#[trigger] ids[i]) < x.isecs.len(),
            out@ == far_branches::<E>(
                *x,
                osecs@,
                offs@,
                ids@,
                first as int,
                b as int,
                thunk_off,
                forward,
            ),
            forall|i: int|
                0 <= i < out.len() ==> (#[trigger] out[i]).0 < x.isecs.len() && out[i].1
                    < x.isecs[out[i].0 as int].relocs.len(),
        decreases n - b,
    {
        let id: u32 = ids[b];
        let ghost start = out@;
        let s: &InputSection = &x.isecs[id as usize];
        let mut k: usize = 0;
        proof {
            assert(start + Seq::<FarBranch>::empty() =~= start);
            assert(x.isec_ok(x.isecs[id as int]));
        }
        while k < s.relocs.len()
            invariant
                x.wf(),
                offs.len() == x.isecs.len(),
                osecs.len() == x.isecs.len(),
                id < x.isecs.len(),
                *s == x.isecs[id as int],
                x.isec_ok(*s),
                k <= s.relocs.len(),
                out@ == start + far_in::<E>(*x, osecs@, offs@, id, k as int, thunk_off, forward),
                forall|i: int|
                    0 <= i < out.len() ==> (#[trigger] out[i]).0 < x.isecs.len() && out[i].1
                        < x.isecs[out[i].0 as int].relocs.len(),
            decreases s.relocs.len() - k,
        {
            let rel: Reloc = s.relocs[k];
            if s.obj != UNSET && E::classify_reloc(rel.r_type) == RelocClass::Branch {
                proof {
                    assert(x.reloc_ok(s.obj, s.relocs[k as int]));
                }
                match x.reloc_target_sym(s.obj, &rel) {
                    None => {},
                    Some(sym) => {
                        if !is_in_reach::<E>(x, osecs, offs, osecs[id as usize], sym, thunk_off, forward) {
                            out.push((id, k, sym));
                        }
                    },
                }
            }
            k += 1;
            proof {
                assert(out@ =~= start + far_in::<E>(
                    *x,
                    osecs@,
                    offs@,
                    id,
                    k as int,
                    thunk_off,
                    forward,
                ));
            }
        }
        b += 1;
    }
    out
}

/// What laying out a section with thunks has decided so far.
#[verifier::ext_equal]
pub struct PlanView {
    /// Where each subsection is.
    pub offs: Seq<u64>,
    /// The end of what is laid out.
    pub off: u64,
    pub thunks: Seq<ThunkView>,
    /// The thunk entry of each branch that may need one.
    pub entries: Seq<(u32, usize, u32)>,
}

/// What laying out a section with thunks has decided so far.
pub struct Plan {
    pub offs: Vec<u64>,
    pub off: u64,
    pub thunks: Vec<Thunk>,
    pub entries: Vec<(u32, usize, u32)>,
}

impl View for Plan {
    type V = PlanView;

    open spec fn view(&self) -> PlanView {
        PlanView {
            offs: self.offs@,
            off: self.off,
            thunks: self.thunks@.map_values(|t: Thunk| t@),
            entries: self.entries@,
        }
    }
}

/// The plan with a thunk added for the subsections `first..n`, if any of
/// their branches may need one. `None` if the thunk has no place. `always`
/// makes room for it in any case.
pub open spec fn with_thunk<E: Arch>(
    x: Inputs,
    osecs: Seq<u32>,
    ids: Seq<u32>,
    p: PlanView,
    first: int,
    n: int,
    forward: bool,
    always: bool,
) -> Option<PlanView> {
    match util::place_at(p.off, 4) {
        None => None,
        Some(at) => {
            let far = far_branches::<E>(x, osecs, p.offs, ids, first, n, at, forward);
            let syms = entry_syms(far, far.len() as int);
            let size = E::info().thunk_size;
            let end = at + syms.len() * size;
            if far.len() >= MAX_ENTRIES || end > u64::MAX {
                None
            } else {
                Some(
                    PlanView {
                        offs: p.offs,
                        off: if syms.len() > 0 || always {
                            end as u64
                        } else {
                            p.off
                        },
                        thunks: if syms.len() > 0 {
                            p.thunks.push(ThunkView { offset: at, syms })
                        } else {
                            p.thunks
                        },
                        entries: p.entries + entries_of(far, at, size, far.len() as int),
                    },
                )
            }
        },
    }
}

/// The plan with the `i`th subsection placed. `None` if it has no place.
pub open spec fn with_isec(x: Inputs, ids: Seq<u32>, p: PlanView, i: int) -> Option<PlanView> {
    let s = x.isecs[ids[i] as int];
    match util::place_at(p.off, s.p2align) {
        None => None,
        Some(at) => if at + s.size > u64::MAX {
            None
        } else {
            Some(
                PlanView {
                    offs: p.offs.update(ids[i] as int, at % 0x1_0000_0000),
                    off: (at + s.size) as u64,
                    ..p
                },
            )
        },
    }
}

/// True when a batch that started at `first`, with the cursor at `start`, is
/// to end before the `i`th subsection.
pub open spec fn ends_batch<E: Arch>(
    x: Inputs,
    ids: Seq<u32>,
    p: PlanView,
    first: int,
    i: int,
    start: u64,
) -> bool {
    let s = x.isecs[ids[i] as int];
    match util::place_at(p.off, s.p2align) {
        None => false,
        Some(at) => i != first && (at + s.size - start > budget::<E>() || at - start >= BATCH),
    }
}

/// Places a batch from the `i`th subsection on: the plan, and where the
/// batch ends.
pub open spec fn batch_from<E: Arch>(
    x: Inputs,
    ids: Seq<u32>,
    p: PlanView,
    first: int,
    i: int,
    start: u64,
) -> Option<(PlanView, int)>
    decreases ids.len() - i,
{
    if i < 0 || i >= ids.len() || ends_batch::<E>(x, ids, p, first, i, start) {
        Some((p, i))
    } else {
        match with_isec(x, ids, p, i) {
            None => None,
            Some(next) => batch_from::<E>(x, ids, next, first, i + 1, start),
        }
    }
}

/// True when everything behind `start` is within forward reach.
pub open spec fn reaches_end<E: Arch>(total: int, start: u64) -> bool {
    total - start <= reach::<E>()
}

/// Lays out the subsections from the `i`th on. A subsection larger than the
/// budget has its thunk in front; other subsections are laid out in batches
/// with a thunk behind each.
pub open spec fn planned<E: Arch>(
    x: Inputs,
    osecs: Seq<u32>,
    ids: Seq<u32>,
    p: PlanView,
    i: int,
    total: int,
) -> Option<PlanView>
    decreases ids.len() - i,
{
    if i < 0 || i >= ids.len() {
        Some(p)
    } else if x.isecs[ids[i] as int].size > budget::<E>() {
        match with_thunk::<E>(x, osecs, ids, p, i, i + 1, reaches_end::<E>(total, p.off), true) {
            None => None,
            Some(q) => match with_isec(x, ids, q, i) {
                None => None,
                Some(next) => planned::<E>(x, osecs, ids, next, i + 1, total),
            },
        }
    } else {
        match batch_from::<E>(x, ids, p, i, i, p.off) {
            None => None,
            Some((q, n)) => if n <= i || n > ids.len() {
                None
            } else {
                match with_thunk::<E>(x, osecs, ids, q, i, n, reaches_end::<E>(total, p.off), false) {
                    None => None,
                    Some(next) => planned::<E>(x, osecs, ids, next, n, total),
                }
            },
        }
    }
}

/// The offsets with the listed subsections taken out of their places.
pub open spec fn unplaced(offs: Seq<u64>, ids: Seq<u32>, n: int) -> Seq<u64>
    decreases n,
{
    if n <= 0 {
        offs
    } else {
        unplaced(offs, ids, n - 1).update(ids[n - 1] as int, UNPLACED)
    }
}

/// The places of subsections.
pub open spec fn offsets_of(isecs: Seq<InputSection>) -> Seq<u64> {
    isecs.map_values(|s: InputSection| s.output_offset)
}

/// The layout of a section with thunks. `None` if it does not fit in the
/// address space.
pub open spec fn thunk_plan<E: Arch>(
    x: Inputs,
    osecs: Seq<u32>,
    offs: Seq<u64>,
    ids: Seq<u32>,
) -> Option<PlanView> {
    let total = size_bound(x, ids);
    if total > u64::MAX {
        None
    } else {
        planned::<E>(
            x,
            osecs,
            ids,
            PlanView {
                offs: unplaced(offs, ids, ids.len() as int),
                off: 0,
                thunks: Seq::empty(),
                entries: Seq::empty(),
            },
            0,
            total,
        )
    }
}

/// What holds of a plan.
pub open spec fn plan_ok(x: Inputs, p: PlanView) -> bool {
    &&& p.offs.len() == x.isecs.len()
    &&& forall|i: int|
        0 <= i < p.entries.len() ==> (#[trigger] p.entries[i]).0 < x.isecs.len() && p.entries[i].1
            < x.isecs[p.entries[i].0 as int].relocs.len()
}

/// Adds the entries of far branches. Returns the symbols of the thunk.
fn add_entries(
    entries: &mut Vec<(u32, usize, u32)>,
    far: &Vec<FarBranch>,
    thunk_off: u64,
    size: u64,
) -> (syms: Vec<u32>)
    requires
        size <= 64,
        far.len() < MAX_ENTRIES,
    ensures
        syms@ == entry_syms(far@, far.len() as int),
        syms.len() <= far.len(),
        final(entries)@ == old(entries)@ + entries_of(far@, thunk_off, size, far.len() as int),
{
    let ghost start = entries@;
    let mut syms: Vec<u32> = Vec::new();
    let mut n: usize = 0;
    assert(start + Seq::<(u32, usize, u32)>::empty() =~= start);
    while n < far.len()
        invariant
            n <= far.len(),
            size <= 64,
            far.len() < MAX_ENTRIES,
            syms@ == entry_syms(far@, n as int),
            syms.len() <= n,
            entries@ == start + entries_of(far@, thunk_off, size, n as int),
        decreases far.len() - n,
    {
        let f: FarBranch = far[n];
        let found: usize = find_position(&syms, f.2);
        if found >= syms.len() {
            syms.push(f.2);
        }
        let at: usize = find_position(&syms, f.2);
        proof {
            assert(at * size <= 0x100_0000_0000_0000 * 64) by (nonlinear_arith)
                requires
                    at <= 0x100_0000_0000_0000,
                    size <= 64,
            ;
            bytes::lemma_word32_word64(thunk_off + at * size);
        }
        let entry: u32 = bytes::low32(bytes::sum64(thunk_off, at as u64 * size));
        entries.push((f.0, f.1, entry));
        n += 1;
        assert(entries@ =~= start + entries_of(far@, thunk_off, size, n as int));
    }
    syms
}

proof fn lemma_entries_of(far: Seq<FarBranch>, thunk_off: u64, size: u64, n: int)
    requires
        0 <= n <= far.len(),
    ensures
        entries_of(far, thunk_off, size, n).len() == n,
        forall|i: int|
            0 <= i < n ==> (#[trigger] entries_of(far, thunk_off, size, n)[i]).0 == far[i].0
                && entries_of(far, thunk_off, size, n)[i].1 == far[i].1,
    decreases n,
{
    if n > 0 {
        lemma_entries_of(far, thunk_off, size, n - 1);
    }
}

fn add_thunk<E: Arch>(
    x: &Inputs,
    osecs: &Vec<u32>,
    ids: &Vec<u32>,
    p: &mut Plan,
    first: usize,
    n: usize,
    forward: bool,
    always: bool,
) -> (ok: bool)
    requires
        x.wf(),
        plan_ok(*x, old(p)@),
        osecs.len() == x.isecs.len(),
        first <= n <= ids.len(),
        forall|i: int| 0 <= i < ids.len() ==> (#[trigger] ids[i]) < x.isecs.len(),
    ensures
        ok ==> with_thunk::<E>(*x, osecs@, ids@, old(p)@, first as int, n as int, forward, always)
            == Some(final(p)@) && plan_ok(*x, final(p)@),
        !ok ==> with_thunk::<E>(
            *x,
            osecs@,
            ids@,
            old(p)@,
            first as int,
            n as int,
            forward,
            always,
        ) is None,
{
    let ghost before = p@;
    let at: u64 = match find_place(p.off, 4) {
        Some(at) => at,
        None => {
            return false;
        },
    };
    let far: Vec<FarBranch> = find_far::<E>(x, osecs, &p.offs, ids, first, n, at, forward);
    if far.len() as u64 >= MAX_ENTRIES {
        return false;
    }
    let size: u64 = E::get_info().thunk_size;
    let syms: Vec<u32> = add_entries(&mut p.entries, &far, at, size);
    proof {
        lemma_entries_of(far@, at, size, far.len() as int);
        assert forall|i: int| 0 <= i < p.entries@.len() implies (#[trigger] p.entries@[i]).0
            < x.isecs.len() && p.entries@[i].1 < x.isecs[p.entries@[i].0 as int].relocs.len() by {
            if i < before.entries.len() {
                assert(p.entries@[i] == before.entries[i]);
            } else {
                let j = i - before.entries.len();
                assert(p.entries@[i] == entries_of(far@, at, size, far.len() as int)[j]);
                assert(far[j].0 < x.isecs.len());
            }
        }
        assert(syms.len() * size <= 0x100_0000_0000_0000 * 64) by (nonlinear_arith)
            requires
                syms.len() <= 0x100_0000_0000_0000,
                size <= 64,
        ;
    }
    let count: u64 = syms.len() as u64;
    if count * size > u64::MAX - at {
        return false;
    }
    if count > 0 || always {
        p.off = at + count * size;
    }
    let ghost tv = p.thunks@.map_values(|t: Thunk| t@);
    if count > 0 {
        let ghost sv = syms@;
        let t = Thunk { offset: at, syms };
        p.thunks.push(t);
        assert(p.thunks@.map_values(|t: Thunk| t@) =~= tv.push(
            ThunkView { offset: at, syms: sv },
        ));
    }
    true
}

fn add_isec(x: &Inputs, ids: &Vec<u32>, p: &mut Plan, i: usize) -> (ok: bool)
    requires
        x.wf(),
        plan_ok(*x, old(p)@),
        i < ids.len(),
        ids[i as int] < x.isecs.len(),
    ensures
        ok ==> with_isec(*x, ids@, old(p)@, i as int) == Some(final(p)@) && plan_ok(
            *x,
            final(p)@,
        ),
        !ok ==> with_isec(*x, ids@, old(p)@, i as int) is None,
{
    let s: &InputSection = &x.isecs[ids[i] as usize];
    let at: u64 = match find_place(p.off, s.p2align) {
        Some(at) => at,
        None => {
            return false;
        },
    };
    if s.size > u64::MAX - at {
        return false;
    }
    p.offs.set(ids[i] as usize, at % 0x1_0000_0000);
    p.off = at + s.size;
    true
}

/// Places a batch. Returns where it ends.
fn add_batch<E: Arch>(x: &Inputs, ids: &Vec<u32>, p: &mut Plan, first: usize) -> (r: Option<usize>)
    requires
        x.wf(),
        plan_ok(*x, old(p)@),
        first < ids.len(),
        forall|i: int| 0 <= i < ids.len() ==> (#[trigger] ids[i]) < x.isecs.len(),
    ensures
        match r {
            Some(n) => batch_from::<E>(
                *x,
                ids@,
                old(p)@,
                first as int,
                first as int,
                old(p).off,
            ) == Some((final(p)@, n as int)) && plan_ok(*x, final(p)@) && n <= ids.len(),
            None => batch_from::<E>(
                *x,
                ids@,
                old(p)@,
                first as int,
                first as int,
                old(p).off,
            ) is None,
        },
{
    let start: u64 = p.off;
    let ghost begin = p@;
    let info = E::get_info();
    let max: u64 = info.branch_range / 2 - MAX_THUNK - BATCH;
    let mut i: usize = first;
    while i < ids.len()
        invariant
            x.wf(),
            plan_ok(*x, p@),
            first <= i <= ids.len(),
            max == budget::<E>(),
            start <= p.off,
            forall|i: int| 0 <= i < ids.len() ==> (#[trigger] ids[i]) < x.isecs.len(),
            batch_from::<E>(*x, ids@, p@, first as int, i as int, start) == batch_from::<E>(
                *x,
                ids@,
                begin,
                first as int,
                first as int,
                start,
            ),
            begin == old(p)@,
            start == old(p).off,
        decreases ids.len() - i,
    {
        let s: &InputSection = &x.isecs[ids[i] as usize];
        match find_place(p.off, s.p2align) {
            Some(at) => {
                if i != first && ((at - start) as u128 + s.size as u128 > max as u128 || at - start
                    >= BATCH) {
                    return Some(i);
                }
            },
            None => {},
        }
        let ghost before = p@;
        if !add_isec(x, ids, p, i) {
            return None;
        }
        i += 1;
    }
    Some(i)
}

fn bound_size(x: &Inputs, ids: &Vec<u32>) -> (r: u128)
    requires
        forall|i: int| 0 <= i < ids.len() ==> (#[trigger] ids[i]) < x.isecs.len(),
    ensures
        size_bound(*x, ids@) <= u64::MAX ==> r == size_bound(*x, ids@),
        size_bound(*x, ids@) > u64::MAX ==> r > u64::MAX,
{
    let mut sum: u128 = 0;
    let mut i: usize = 0;
    while i < ids.len()
        invariant
            i <= ids.len(),
            forall|i: int| 0 <= i < ids.len() ==> (#[trigger] ids[i]) < x.isecs.len(),
            sum == padded_sizes(*x, ids@, i as int),
            sum <= i * 0x1_0000_0000_0000_000f,
        decreases ids.len() - i,
    {
        assert(i * 0x1_0000_0000_0000_000f <= 0xffff_ffff_ffff_ffff * 0x1_0000_0000_0000_000f)
            by (nonlinear_arith)
            requires
                0 <= i <= 0xffff_ffff_ffff_ffff,
        ;
        if sum > 0xffff_ffff_ffff_ffff {
            proof {
                lemma_sizes_grow(*x, ids@, i as int, ids.len() as int);
            }
            return sum;
        }
        sum = sum + x.isecs[ids[i] as usize].size as u128 + 16;
        i += 1;
        assert((i - 1) * 0x1_0000_0000_0000_000f + 0x1_0000_0000_0000_000f == i
            * 0x1_0000_0000_0000_000f) by (nonlinear_arith);
    }
    if sum > 0xffff_ffff_ffff_ffff {
        return sum;
    }
    let batches: u128 = sum / BATCH as u128 + 1;
    assert(batches <= 0x1_0000_0000_0000_0000);
    assert(batches * MAX_THUNK <= 0x1_0000_0000_0000_0000 * 0x10_0000);
    sum + batches * MAX_THUNK as u128
}

/// Sizes add up.
pub proof fn lemma_sizes_grow(x: Inputs, ids: Seq<u32>, a: int, b: int)
    requires
        0 <= a <= b,
    ensures
        padded_sizes(x, ids, a) <= padded_sizes(x, ids, b),
    decreases b,
{
    if a < b {
        lemma_sizes_grow(x, ids, a, b - 1);
    }
}

/// Lays out the subsections of one large executable output section with
/// range-extension thunks between them. Each relocation that might be out of
/// range is given a thunk entry. `None` if the section does not fit in the
/// address space.
pub fn plan_thunks<E: Arch>(
    x: &Inputs,
    osecs: &Vec<u32>,
    start_offs: &Vec<u64>,
    ids: &Vec<u32>,
) -> (r: Option<Plan>)
    requires
        x.wf(),
        osecs.len() == x.isecs.len(),
        start_offs.len() == x.isecs.len(),
        forall|i: int| 0 <= i < ids.len() ==> (#[trigger] ids[i]) < x.isecs.len(),
    ensures
        match r {
            Some(p) => thunk_plan::<E>(*x, osecs@, start_offs@, ids@) == Some(p@) && plan_ok(*x, p@),
            None => thunk_plan::<E>(*x, osecs@, start_offs@, ids@) is None,
        },
{
    let wide: u128 = bound_size(x, ids);
    if wide > 0xffff_ffff_ffff_ffff {
        return None;
    }
    let total: u64 = wide as u64;
    let mut offs: Vec<u64> = Vec::new();
    while offs.len() < x.isecs.len()
        invariant
            offs.len() <= x.isecs.len(),
            start_offs.len() == x.isecs.len(),
            offs@ =~= start_offs@.take(offs.len() as int),
        decreases x.isecs.len() - offs.len(),
    {
        let o: u64 = start_offs[offs.len()];
        offs.push(o);
    }
    assert(offs@ =~= start_offs@);
    let mut k: usize = 0;
    while k < ids.len()
        invariant
            k <= ids.len(),
            offs.len() == x.isecs.len(),
            forall|i: int| 0 <= i < ids.len() ==> (#[trigger] ids[i]) < x.isecs.len(),
            offs@ == unplaced(start_offs@, ids@, k as int),
        decreases ids.len() - k,
    {
        offs.set(ids[k] as usize, UNPLACED);
        k += 1;
    }
    let mut p = Plan { offs, off: 0, thunks: Vec::new(), entries: Vec::new() };
    let ghost begin = p@;
    proof {
        assert(begin.thunks =~= Seq::empty());
        assert(begin.entries =~= Seq::empty());
    }
    let info = E::get_info();
    let max: u64 = info.branch_range / 2 - MAX_THUNK - BATCH;
    let range: u64 = info.branch_range / 2 - MAX_THUNK;
    let mut i: usize = 0;
    while i < ids.len()
        invariant
            x.wf(),
            plan_ok(*x, p@),
            osecs.len() == x.isecs.len(),
            i <= ids.len(),
            max == budget::<E>(),
            range == reach::<E>(),
            total == size_bound(*x, ids@),
            forall|i: int| 0 <= i < ids.len() ==> (#[trigger] ids[i]) < x.isecs.len(),
            planned::<E>(*x, osecs@, ids@, p@, i as int, total as int) == planned::<E>(
                *x,
                osecs@,
                ids@,
                begin,
                0,
                total as int,
            ),
            thunk_plan::<E>(*x, osecs@, start_offs@, ids@) == planned::<E>(*x, osecs@, ids@, begin, 0, total as int),
        decreases ids.len() - i,
    {
        let start: u64 = p.off;
        let forward: bool = total as u128 <= start as u128 + range as u128;
        if x.isecs[ids[i] as usize].size > max {
            if !add_thunk::<E>(x, osecs, ids, &mut p, i, i + 1, forward, true) {
                return None;
            }
            if !add_isec(x, ids, &mut p, i) {
                return None;
            }
            i += 1;
        } else {
            let n: usize = match add_batch::<E>(x, ids, &mut p, i) {
                Some(n) => n,
                None => {
                    return None;
                },
            };
            if n <= i {
                return None;
            }
            if !add_thunk::<E>(x, osecs, ids, &mut p, i, n, forward, false) {
                return None;
            }
            i = n;
        }
    }
    Some(p)
}

/// The subsections, as mathematical values, with a plan's first `n` thunk
/// entries recorded.
pub open spec fn with_entries(
    isecs: Seq<IsecView>,
    entries: Seq<(u32, usize, u32)>,
    n: int,
) -> Seq<IsecView>
    decreases n,
{
    if n <= 0 {
        isecs
    } else {
        let before = with_entries(isecs, entries, n - 1);
        let e = entries[n - 1];
        let s = before[e.0 as int];
        before.update(
            e.0 as int,
            IsecView {
                relocs: s.relocs.update(
                    e.1 as int,
                    Reloc { thunk_off: e.2, ..s.relocs[e.1 as int] },
                ),
                ..s
            },
        )
    }
}

/// The subsections with new places.
pub open spec fn with_offsets(isecs: Seq<IsecView>, offs: Seq<u64>) -> Seq<IsecView> {
    Seq::new(isecs.len(), |i: int| IsecView { output_offset: offs[i], ..isecs[i] })
}

/// True when two lists of subsections differ in output sections, offsets and
/// thunk entries alone.
pub open spec fn placed_alike(a: Seq<InputSection>, b: Seq<InputSection>) -> bool {
    a.len() == b.len() && forall|i: int| 0 <= i < a.len() ==> alike(a[i], #[trigger] b[i])
}

/// True when two subsections differ in output section, offset and thunk
/// entries alone.
pub open spec fn alike(a: InputSection, b: InputSection) -> bool {
    &&& b == (InputSection {
        osec: b.osec,
        output_offset: b.output_offset,
        relocs: b.relocs,
        ..a
    })
    &&& b.relocs.len() == a.relocs.len()
    &&& forall|k: int|
        0 <= k < b.relocs.len() ==> (#[trigger] b.relocs[k]) == (Reloc {
            thunk_off: b.relocs[k].thunk_off,
            ..a.relocs[k]
        })
}

fn set_thunk_off(s: &mut InputSection, k: usize, entry: u32)
    requires
        k < old(s).relocs.len(),
    ensures
        final(s)@ == (IsecView {
            relocs: old(s).relocs@.update(
                k as int,
                Reloc { thunk_off: entry, ..old(s).relocs[k as int] },
            ),
            ..old(s)@
        }),
        alike(*old(s), *final(s)),
        final(s).osec == old(s).osec,
{
    let mut rel: Reloc = s.relocs[k];
    rel.thunk_off = entry;
    s.relocs.set(k, rel);
}

/// Carries out a plan.
pub fn apply_plan(isecs: &mut Vec<InputSection>, p: &Plan)
    requires
        p.offs.len() == old(isecs).len(),
        forall|i: int|
            0 <= i < p.entries.len() ==> (#[trigger] p.entries[i]).0 < old(isecs).len()
                && p.entries[i].1 < old(isecs)[p.entries[i].0 as int].relocs.len(),
    ensures
        crate::input_sections::isec_views(final(isecs)@) == with_entries(
            with_offsets(crate::input_sections::isec_views(old(isecs)@), p.offs@),
            p.entries@,
            p.entries.len() as int,
        ),
        placed_alike(old(isecs)@, final(isecs)@),
        forall|i: int|
            0 <= i < old(isecs).len() ==> (#[trigger] final(isecs)[i]).osec == old(isecs)[i].osec,
{
    let ghost start = isecs@;
    let ghost sv = crate::input_sections::isec_views(start);
    let mut i: usize = 0;
    while i < isecs.len()
        invariant
            i <= isecs.len(),
            isecs.len() == start.len(),
            p.offs.len() == start.len(),
            forall|k: int|
                0 <= k < i ==> #[trigger] isecs[k] == (InputSection {
                    output_offset: p.offs[k],
                    ..start[k]
                }),
            forall|k: int| i <= k < isecs.len() ==> #[trigger] isecs[k] == start[k],
        decreases isecs.len() - i,
    {
        isecs[i].output_offset = p.offs[i];
        i += 1;
    }
    let ghost moved = with_offsets(sv, p.offs@);
    assert(crate::input_sections::isec_views(isecs@) =~= moved);
    let mut n: usize = 0;
    while n < p.entries.len()
        invariant
            n <= p.entries.len(),
            isecs.len() == start.len(),
            forall|i: int|
                0 <= i < p.entries.len() ==> (#[trigger] p.entries[i]).0 < start.len()
                    && p.entries[i].1 < start[p.entries[i].0 as int].relocs.len(),
            crate::input_sections::isec_views(isecs@) == with_entries(
                moved,
                p.entries@,
                n as int,
            ),
            placed_alike(start, isecs@),
            forall|i: int| 0 <= i < start.len() ==> (#[trigger] isecs[i]).osec == start[i].osec,
        decreases p.entries.len() - n,
    {
        let e: (u32, usize, u32) = p.entries[n];
        let ghost before = isecs@;
        let id: usize = e.0 as usize;
        assert(alike(start[id as int], before[id as int]));
        set_thunk_off(&mut isecs[id], e.1, e.2);
        proof {
            let bv = crate::input_sections::isec_views(before);
            assert(bv[id as int] == before[id as int]@);
            assert(crate::input_sections::isec_views(isecs@) =~= with_entries(
                moved,
                p.entries@,
                n + 1,
            ));
            assert forall|i: int| 0 <= i < start.len() implies alike(
                start[i],
                #[trigger] isecs@[i],
            ) by {
                assert(alike(start[i], before[i]));
                if i == id {
                    lemma_alike_transitive(start[i], before[i], isecs@[i]);
                }
            }
        }
        n += 1;
    }
}

/// Likeness is transitive.
pub proof fn lemma_alike_transitive(a: InputSection, b: InputSection, c: InputSection)
    requires
        alike(a, b),
        alike(b, c),
    ensures
        alike(a, c),
{
    assert forall|k: int| 0 <= k < c.relocs.len() implies (#[trigger] c.relocs[k]) == (Reloc {
        thunk_off: c.relocs[k].thunk_off,
        ..a.relocs[k]
    }) by {
        assert(b.relocs[k] == (Reloc { thunk_off: b.relocs[k].thunk_off, ..a.relocs[k] }));
    }
}

/// Subsections stay well formed when they are placed otherwise.
pub proof fn lemma_placed_isecs(before: Inputs, x: Inputs)
    requires
        before.wf(),
        placed_alike(before.isecs@, x.isecs@),
        x.objs == before.objs,
        x.synthetic_hdrs == before.synthetic_hdrs,
        x.unwind_records.len() == before.unwind_records.len(),
        forall|k: int|
            0 <= k < x.unwind_records.len() ==> (#[trigger] x.unwind_records[k]).isec
                == before.unwind_records[k].isec,
    ensures
        forall|i: int| 0 <= i < x.isecs.len() ==> x.isec_ok(#[trigger] x.isecs[i]),
        forall|i: int| 0 <= i < x.isecs.len() ==> #[trigger] x.range_ok(i),
{
    assert forall|i: int| 0 <= i < x.isecs.len() implies x.isec_ok(#[trigger] x.isecs[i])
        && x.range_ok(i) by {
        assert(alike(before.isecs@[i], x.isecs@[i]));
        assert(before.isec_ok(before.isecs[i]));
        assert(before.range_ok(i));
        let s = x.isecs[i];
        assert forall|k: int| 0 <= k < s.relocs.len() implies x.reloc_ok(
            s.obj,
            #[trigger] s.relocs[k],
        ) by {
            assert(before.reloc_ok(s.obj, before.isecs[i].relocs[k]));
        }
    }
    assert forall|i: int| 0 <= i < x.isecs.len() implies #[trigger] x.range_ok(i) by {
        assert(x.isec_ok(x.isecs[i]));
    }
}

/// Inputs stay well formed when subsections are placed otherwise.
pub proof fn lemma_placed_wf(before: Inputs, x: Inputs)
    requires
        before.wf(),
        placed_alike(before.isecs@, x.isecs@),
        x.objs == before.objs,
        x.symtab == before.symtab,
        x.synthetic_hdrs == before.synthetic_hdrs,
        x.unwind_records == before.unwind_records,
        x.cies == before.cies,
        x.fdes == before.fdes,
    ensures
        x.wf(),
{
    lemma_placed_isecs(before, x);
    assert forall|i: int| 0 <= i < x.objs.len() implies x.obj_ok(#[trigger] x.objs[i]) by {
        assert(before.obj_ok(before.objs[i]));
    }
    assert forall|i: int| 0 <= i < x.fdes.len() implies x.fde_ok(#[trigger] x.fdes[i]) by {
        assert(before.fde_ok(before.fdes[i]));
    }
    assert forall|i: int| 0 <= i < x.unwind_records.len() implies x.record_ok(
        #[trigger] x.unwind_records[i],
    ) by {
        assert(before.record_ok(before.unwind_records[i]));
    }
    assert forall|i: int| 0 <= i < x.cies.len() implies x.cie_ok(#[trigger] x.cies[i]) by {
        assert(before.cie_ok(before.cies[i]));
    }
    assert forall|i: int| 0 <= i < x.symtab.syms.len() implies x.sym_ok(
        #[trigger] x.symtab.syms[i],
    ) by {
        assert(before.sym_ok(before.symtab.syms[i]));
    }
}

/// The output sections of subsections.
pub open spec fn osecs_of(isecs: Seq<InputSection>) -> Seq<u32> {
    isecs.map_values(|s: InputSection| s.osec)
}

/// Lays out the subsections of one large executable output section with
/// range-extension thunks between them. `None` if the section does not fit
/// in the address space; nothing is changed then.
pub fn create_range_extension_thunks<E: Arch>(x: &mut Inputs, ids: &Vec<u32>) -> (r: Option<
    Vec<Thunk>,
>)
    requires
        old(x).wf(),
        forall|i: int| 0 <= i < ids.len() ==> (#[trigger] ids[i]) < old(x).isecs.len(),
    ensures
        ({
            let p = thunk_plan::<E>(
                *old(x),
                osecs_of(old(x).isecs@),
                offsets_of(old(x).isecs@),
                ids@,
            );
            match r {
                Some(t) => p is Some && t@.map_values(|t: Thunk| t@) == (p->0).thunks
                    && crate::input_sections::isec_views(final(x).isecs@) == with_entries(
                    with_offsets(
                        crate::input_sections::isec_views(old(x).isecs@),
                        (p->0).offs,
                    ),
                    (p->0).entries,
                    (p->0).entries.len() as int,
                ),
                None => p is None && final(x).isecs == old(x).isecs,
            }
        }),
        placed_alike(old(x).isecs@, final(x).isecs@),
        final(x).wf(),
        final(x).objs == old(x).objs,
        final(x).symtab == old(x).symtab,
        final(x).synthetic_hdrs == old(x).synthetic_hdrs,
        final(x).unwind_records == old(x).unwind_records,
        final(x).cies == old(x).cies,
        final(x).fdes == old(x).fdes,
{
    let ghost before = *x;
    let mut osecs: Vec<u32> = Vec::new();
    let mut offs: Vec<u64> = Vec::new();
    while offs.len() < x.isecs.len()
        invariant
            *x == before,
            offs.len() <= x.isecs.len(),
            osecs.len() == offs.len(),
            offs@ =~= offsets_of(x.isecs@).take(offs.len() as int),
            osecs@ =~= osecs_of(x.isecs@).take(offs.len() as int),
        decreases x.isecs.len() - offs.len(),
    {
        let c: u32 = x.isecs[offs.len()].osec;
        let o: u64 = x.isecs[offs.len()].output_offset;
        osecs.push(c);
        offs.push(o);
    }
    assert(offs@ =~= offsets_of(x.isecs@));
    assert(osecs@ =~= osecs_of(x.isecs@));
    match plan_thunks::<E>(x, &osecs, &offs, ids) {
        None => None,
        Some(p) => {
            proof {
                assert forall|i: int| 0 <= i < p.entries.len() implies (
                #[trigger] p.entries[i]).0 < before.isecs.len() && p.entries[i].1
                    < before.isecs[p.entries[i].0 as int].relocs.len() by {
                    assert(p@.entries[i].0 < before.isecs.len());
                }
            }
            apply_plan(&mut x.isecs, &p);
            proof {
                lemma_placed_wf(before, *x);
            }
            Some(p.thunks)
        },
    }
}

/// A batch of more than one subsection ends within the budget of its start,
/// so that all of its branches reach the thunk behind it.
pub proof fn lemma_batch_within_budget<E: Arch>(
    x: Inputs,
    ids: Seq<u32>,
    p: PlanView,
    first: int,
    i: int,
    start: u64,
)
    requires
        0 <= first <= i,
        i > first + 1 ==> p.off - start <= budget::<E>(),
    ensures
        batch_from::<E>(x, ids, p, first, i, start) matches Some((q, n)) ==> n > first + 1
            ==> q.off - start <= budget::<E>(),
    decreases ids.len() - i,
{
    if i < ids.len() && !ends_batch::<E>(x, ids, p, first, i, start) {
        if let Some(next) = with_isec(x, ids, p, i) {
            lemma_batch_within_budget::<E>(x, ids, next, first, i + 1, start);
        }
    }
}

} // verus!
