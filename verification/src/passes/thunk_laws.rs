//! What range-extension thunks are for: every branch either reaches its
//! target itself or has an entry that jumps there.
use crate::arch::{Arch, RelocClass};
use crate::input_sections::{RelocTarget, UNPLACED};
use crate::inputs::{survivor, Inputs};
use crate::thunks::{entries_of, entry_syms, far_in, far_target, FarBranch};
use crate::util;
use crate::util::bytes;
use vstd::prelude::*;

verus! {

/// A branch to a symbol that gets no entry goes to a definition in its own
/// output section. If that has its place before the thunk, it is closer to
/// the thunk than half the target's branch range; if it has none yet, all
/// that follows is known to be close.
pub proof fn lemma_near_branches_reach<E: Arch>(
    x: Inputs,
    osecs: Seq<u32>,
    offs: Seq<u64>,
    id: int,
    k: int,
    thunk_off: u64,
    forward: bool,
    i: u32,
)
    requires
        x.isecs[id].obj != u32::MAX,
        x.isecs[id].relocs[k].refers_to() == RelocTarget::Sym(i),
        E::class_of(x.isecs[id].relocs[k].r_type) == RelocClass::Branch,
        far_target::<E>(x, osecs, offs, id, k, thunk_off, forward) is None,
    ensures
        ({
            let s = x.symtab.syms[x.objs[x.isecs[id].obj as int].syms[i as int] as int];
            let t = survivor(x.isecs@, s.isec as int);
            &&& s.defined_by() is Obj
            &&& s.isec != u32::MAX
            &&& osecs[t] == osecs[id]
            &&& offs[t] != UNPLACED ==> 2 * (thunk_off - (offs[t] + s.value) + 0x10_0000)
                < E::info().branch_range
            &&& offs[t] == UNPLACED ==> forward
        }),
{
}

/// A branch that may not reach its target gets an entry for that target.
pub proof fn lemma_far_branches_listed<E: Arch>(
    x: Inputs,
    osecs: Seq<u32>,
    offs: Seq<u64>,
    id: u32,
    n: int,
    k: int,
    thunk_off: u64,
    forward: bool,
    i: u32,
)
    requires
        0 <= k < n <= x.isecs[id as int].relocs.len(),
        x.isecs[id as int].obj != u32::MAX,
        x.isecs[id as int].relocs[k].refers_to() == RelocTarget::Sym(i),
        E::class_of(x.isecs[id as int].relocs[k].r_type) == RelocClass::Branch,
        ({
            let s = x.symtab.syms[x.objs[x.isecs[id as int].obj as int].syms[i as int] as int];
            let t = survivor(x.isecs@, s.isec as int);
            ||| !(s.defined_by() is Obj)
            ||| s.isec == u32::MAX
            ||| osecs[t] != osecs[id as int]
            ||| offs[t] == UNPLACED && !forward
            ||| offs[t] != UNPLACED && 2 * (thunk_off - (offs[t] + s.value) + 0x10_0000)
                >= E::info().branch_range
        }),
    ensures
        far_in::<E>(x, osecs, offs, id, n, thunk_off, forward).contains(
            (id, k as usize, x.objs[x.isecs[id as int].obj as int].syms[i as int]),
        ),
    decreases n,
{
    let f = (id, k as usize, x.objs[x.isecs[id as int].obj as int].syms[i as int]);
    let all = far_in::<E>(x, osecs, offs, id, n, thunk_off, forward);
    let before = far_in::<E>(x, osecs, offs, id, n - 1, thunk_off, forward);
    if k < n - 1 {
        lemma_far_branches_listed::<E>(x, osecs, offs, id, n - 1, k, thunk_off, forward, i);
        let j = before.index_of(f);
        assert(all[j] == f);
    } else {
        assert(far_target::<E>(x, osecs, offs, id as int, k, thunk_off, forward) == Some(f.2));
        assert(all[before.len() as int] == f);
    }
}

proof fn lemma_syms_grow(far: Seq<FarBranch>, a: int, b: int)
    requires
        0 <= a <= b <= far.len(),
    ensures
        entry_syms(far, a).len() <= entry_syms(far, b).len(),
        forall|i: int|
            0 <= i < entry_syms(far, a).len() ==> #[trigger] entry_syms(far, b)[i] == entry_syms(
                far,
                a,
            )[i],
    decreases b - a,
{
    if a < b {
        lemma_syms_grow(far, a, b - 1);
    }
}

proof fn lemma_sym_listed(far: Seq<FarBranch>, n: int)
    requires
        0 < n <= far.len(),
    ensures
        entry_syms(far, n).contains(far[n - 1].2),
{
    let before = entry_syms(far, n - 1);
    if !before.contains(far[n - 1].2) {
        assert(entry_syms(far, n)[before.len() as int] == far[n - 1].2);
    }
}

proof fn lemma_entries(far: Seq<FarBranch>, thunk_off: u64, size: u64, n: int, k: int)
    requires
        0 <= k < n <= far.len(),
    ensures
        entries_of(far, thunk_off, size, n).len() == n,
        ({
            let e = entries_of(far, thunk_off, size, n)[k];
            let at = util::position_of(entry_syms(far, k + 1), far[k].2, 0);
            e == (far[k].0, far[k].1, bytes::word32(thunk_off + at * size))
        }),
    decreases n,
{
    lemma_entries_len(far, thunk_off, size, n - 1);
    if k < n - 1 {
        lemma_entries(far, thunk_off, size, n - 1, k);
    }
}

proof fn lemma_entries_len(far: Seq<FarBranch>, thunk_off: u64, size: u64, n: int)
    requires
        0 <= n,
    ensures
        entries_of(far, thunk_off, size, n).len() == n,
    decreases n,
{
    if n > 0 {
        lemma_entries_len(far, thunk_off, size, n - 1);
    }
}

/// The entry of a far branch is one of its thunk's, and it is the one that
/// jumps to the branch's own target: entry `j` stands `j` entry sizes behind
/// the thunk's start and belongs to the thunk's `j`th symbol. The result is
/// its number.
pub proof fn lemma_entry_jumps_to_target(
    far: Seq<FarBranch>,
    thunk_off: u64,
    size: u64,
    k: int,
) -> (j: int)
    requires
        0 <= k < far.len(),
        thunk_off + far.len() * size <= u32::MAX,
    ensures
        ({
            let syms = entry_syms(far, far.len() as int);
            let e = entries_of(far, thunk_off, size, far.len() as int)[k];
            &&& 0 <= j < syms.len()
            &&& syms[j] == far[k].2
            &&& e.0 == far[k].0
            &&& e.1 == far[k].1
            &&& e.2 == thunk_off + j * size
        }),
{
    let n = far.len() as int;
    lemma_entries(far, thunk_off, size, n, k);
    lemma_sym_listed(far, k + 1);
    let part = entry_syms(far, k + 1);
    util::lemma_position_of(part, far[k].2, 0);
    let j = util::position_of(part, far[k].2, 0);
    if j >= part.len() {
        let i = part.index_of(far[k].2);
        assert(part[i] == far[k].2);
    }
    lemma_syms_grow(far, k + 1, n);
    lemma_syms_bound(far, k + 1);
    assert(entry_syms(far, n)[j] == part[j]);
    assert(0 <= j * size <= n * size) by (nonlinear_arith)
        requires
            0 <= j <= n,
            0 <= size,
    ;
    assert(bytes::word32(thunk_off + j * size) == thunk_off + j * size) by {
        reveal(bytes::word32);
    }
    j
}

proof fn lemma_syms_bound(far: Seq<FarBranch>, n: int)
    requires
        0 <= n <= far.len(),
    ensures
        entry_syms(far, n).len() <= n,
    decreases n,
{
    if n > 0 {
        lemma_syms_bound(far, n - 1);
    }
}

} // verus!
