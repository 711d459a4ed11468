//! The layout of the DWARF unwind records that reach the output.
use crate::input_files::eh_frame::{CieView, FdeView};
use crate::input_files::{Cie, Fde, UnwindRecord};
use crate::input_sections::{InputSection, NO_REPLACEMENT};
use crate::util::lists;
use vstd::prelude::*;

verus! {

/// Which FDEs stay: those whose function was not folded into another.
pub open spec fn unfolded(fdes: Seq<Fde>, isecs: Seq<InputSection>) -> Seq<bool> {
    fdes.map_values(|f: Fde| isecs[f.isec as int].replacement == NO_REPLACEMENT)
}

/// The records with their FDEs renumbered: an FDE that stays is named by its
/// new position, and one that goes is named no more.
pub open spec fn renumbered(records: Seq<UnwindRecord>, kept: Seq<bool>) -> Seq<UnwindRecord> {
    records.map_values(
        |r: UnwindRecord| UnwindRecord { fde: super::dead_strip::moved_fde(r.fde, kept), ..r },
    )
}

fn renumber(records: &mut Vec<UnwindRecord>, kept: &Vec<bool>)
    requires
        forall|k: int|
            0 <= k < old(records).len() ==> ((#[trigger] old(records)[k]).fde matches Some(f) ==> f
                < kept.len()),
    ensures
        final(records)@ == renumbered(old(records)@, kept@),
{
    let counts: Vec<usize> = lists::count_all(kept);
    let ghost start = records@;
    let ghost goal = renumbered(start, kept@);
    let mut i: usize = 0;
    while i < records.len()
        invariant
            i <= records.len(),
            records.len() == start.len(),
            goal == renumbered(start, kept@),
            counts.len() == kept.len(),
            forall|k: int|
                0 <= k < counts.len() ==> #[trigger] counts[k] == lists::count_kept(kept@, k),
            forall|k: int|
                0 <= k < start.len() ==> ((#[trigger] start[k]).fde matches Some(f) ==> f
                    < kept.len()),
            forall|k: int| 0 <= k < i ==> #[trigger] records[k] == goal[k],
            forall|k: int| i <= k < records.len() ==> #[trigger] records[k] == start[k],
        decreases records.len() - i,
    {
        let r: UnwindRecord = records[i];
        assert(r == start[i as int]);
        let fde: Option<usize> = match r.fde {
            Some(f) => if kept[f] {
                Some(counts[f])
            } else {
                None
            },
            None => None,
        };
        records.set(i, UnwindRecord { fde, ..r });
        i += 1;
    }
    assert(records@ =~= goal);
}

/// Drops the FDEs of folded functions, which duplicate their leader's, and
/// renumbers the links of the records around them.
pub fn drop_folded(
    fdes: &mut Vec<Fde>,
    records: &mut Vec<UnwindRecord>,
    isecs: &Vec<InputSection>,
)
    requires
        forall|i: int| 0 <= i < old(fdes).len() ==> (#[trigger] old(fdes)[i]).isec < isecs.len(),
        forall|k: int|
            0 <= k < old(records).len() ==> ((#[trigger] old(records)[k]).fde matches Some(f) ==> f
                < old(fdes).len()),
    ensures
        final(fdes)@ == lists::kept(old(fdes)@, unfolded(old(fdes)@, isecs@)),
        final(records)@ == renumbered(old(records)@, unfolded(old(fdes)@, isecs@)),
{
    let mut keep: Vec<bool> = Vec::new();
    while keep.len() < fdes.len()
        invariant
            keep.len() <= fdes.len(),
            forall|i: int| 0 <= i < fdes.len() ==> (#[trigger] fdes[i]).isec < isecs.len(),
            keep@ =~= unfolded(fdes@, isecs@).take(keep.len() as int),
        decreases fdes.len() - keep.len(),
    {
        let k: bool = isecs[fdes[keep.len()].isec].replacement == NO_REPLACEMENT;
        keep.push(k);
    }
    assert(keep@ =~= unfolded(fdes@, isecs@));
    renumber(records, &keep);
    lists::retain(fdes, &keep);
}

/// The CIEs with those marked that the first `n` FDEs use.
pub open spec fn used_cies(cies: Seq<CieView>, fdes: Seq<FdeView>, n: int) -> Seq<CieView>
    decreases n,
{
    if n <= 0 {
        cies
    } else {
        let before = used_cies(cies, fdes, n - 1);
        let c = fdes[n - 1].cie as int;
        before.update(c, CieView { is_alive: true, ..before[c] })
    }
}

/// Where the first `n` CIEs end: those in use, one behind the other.
pub open spec fn cies_end(cies: Seq<CieView>, n: int) -> int
    decreases n,
{
    if n <= 0 {
        0
    } else {
        cies_end(cies, n - 1) + if cies[n - 1].is_alive {
            cies[n - 1].data.len() as int
        } else {
            0
        }
    }
}

/// Where the first `n` FDEs end, the first standing at `start`.
pub open spec fn fdes_end(fdes: Seq<FdeView>, start: int, n: int) -> int
    decreases n,
{
    if n <= 0 {
        start
    } else {
        fdes_end(fdes, start, n - 1) + fdes[n - 1].data.len()
    }
}

/// The CIEs with the places of those in use.
pub open spec fn placed_cies(cies: Seq<CieView>) -> Seq<CieView> {
    Seq::new(
        cies.len(),
        |i: int|
            if cies[i].is_alive {
                CieView { output_offset: cies_end(cies, i) as u32, ..cies[i] }
            } else {
                cies[i]
            },
    )
}

/// The FDEs with their places behind the CIEs.
pub open spec fn placed_fdes(fdes: Seq<FdeView>, start: int) -> Seq<FdeView> {
    Seq::new(
        fdes.len(),
        |i: int| FdeView { output_offset: fdes_end(fdes, start, i) as u32, ..fdes[i] },
    )
}

/// The CIEs, FDEs and the size of __eh_frame. `None` if it is too large.
pub open spec fn eh_layout(cies: Seq<CieView>, fdes: Seq<FdeView>) -> Option<
    (Seq<CieView>, Seq<FdeView>, u32),
> {
    let used = used_cies(cies, fdes, fdes.len() as int);
    let mid = cies_end(used, used.len() as int);
    let end = fdes_end(fdes, mid, fdes.len() as int);
    if fdes.len() == 0 {
        Some((cies, fdes, 0))
    } else if end > u32::MAX {
        None
    } else {
        Some((placed_cies(used), placed_fdes(fdes, mid), end as u32))
    }
}

proof fn lemma_cies_grow(cies: Seq<CieView>, a: int, b: int)
    requires
        0 <= a <= b,
    ensures
        cies_end(cies, a) <= cies_end(cies, b),
    decreases b,
{
    if a < b {
        lemma_cies_grow(cies, a, b - 1);
    }
}

proof fn lemma_fdes_grow(fdes: Seq<FdeView>, start: int, a: int, b: int)
    requires
        0 <= a <= b,
    ensures
        fdes_end(fdes, start, a) <= fdes_end(fdes, start, b),
    decreases b,
{
    if a < b {
        lemma_fdes_grow(fdes, start, a, b - 1);
    }
}

fn mark_used(c: &mut Cie)
    ensures
        final(c)@ == (CieView { is_alive: true, ..old(c)@ }),
        final(c).personality == old(c).personality,
{
    c.is_alive = true;
}

/// Lays out the DWARF records: the CIEs in use first, then the FDEs. Returns
/// the size. `None` if it does not fit in 32 bits.
pub fn lay_out_eh_frame(cies: &mut Vec<Cie>, fdes: &mut Vec<Fde>) -> (r: Option<u32>)
    requires
        forall|i: int| 0 <= i < old(fdes).len() ==> (#[trigger] old(fdes)[i]).cie < old(cies).len(),
    ensures
        match r {
            Some(size) => eh_layout(
                crate::input_files::eh_frame::cie_views(old(cies)@),
                crate::input_files::eh_frame::fde_views(old(fdes)@),
            ) == Some(
                (
                    crate::input_files::eh_frame::cie_views(final(cies)@),
                    crate::input_files::eh_frame::fde_views(final(fdes)@),
                    size,
                ),
            ),
            None => eh_layout(
                crate::input_files::eh_frame::cie_views(old(cies)@),
                crate::input_files::eh_frame::fde_views(old(fdes)@),
            ) is None,
        },
        final(cies).len() == old(cies).len(),
        final(fdes).len() == old(fdes).len(),
        forall|i: int|
            0 <= i < old(cies).len() ==> (#[trigger] final(cies)[i]).personality == old(cies)[i].personality,
        forall|i: int|
            0 <= i < old(fdes).len() ==> (#[trigger] final(fdes)[i]).isec == old(fdes)[i].isec
                && final(fdes)[i].cie == old(fdes)[i].cie && final(fdes)[i].lsda == old(fdes)[i].lsda,
{
    let ghost c0 = cies@;
    let ghost f0 = fdes@;
    let ghost cv = crate::input_files::eh_frame::cie_views(cies@);
    let ghost fv = crate::input_files::eh_frame::fde_views(fdes@);
    if fdes.len() == 0 {
        return Some(0);
    }
    let mut n: usize = 0;
    while n < fdes.len()
        invariant
            n <= fdes.len(),
            fdes@ == f0,
            cies.len() == c0.len(),
            fv == crate::input_files::eh_frame::fde_views(f0),
            forall|i: int| 0 <= i < fdes.len() ==> (#[trigger] fdes[i]).cie < c0.len(),
            crate::input_files::eh_frame::cie_views(cies@) == used_cies(cv, fv, n as int),
            forall|i: int|
                0 <= i < c0.len() ==> (#[trigger] cies[i]).personality == c0[i].personality,
        decreases fdes.len() - n,
    {
        let c: usize = fdes[n].cie;
        assert(fv[n as int] == fdes[n as int]@);
        let ghost before = crate::input_files::eh_frame::cie_views(cies@);
        assert(before[c as int] == cies[c as int]@);
        mark_used(&mut cies[c]);
        n += 1;
        assert(crate::input_files::eh_frame::cie_views(cies@) =~= used_cies(cv, fv, n as int));
    }
    let ghost c1 = cies@;
    let ghost used = crate::input_files::eh_frame::cie_views(cies@);
    let mut off: u64 = 0;
    let mut i: usize = 0;
    while i < cies.len()
        invariant
            i <= cies.len(),
            cies.len() == c1.len(),
            used == crate::input_files::eh_frame::cie_views(c1),
            off == cies_end(used, i as int),
            off <= u32::MAX,
            forall|k: int| 0 <= k < i ==> (#[trigger] cies[k])@ == placed_cies(used)[k],
            forall|k: int| i <= k < cies.len() ==> #[trigger] cies[k] == c1[k],
            forall|k: int|
                0 <= k < c1.len() ==> (#[trigger] cies[k]).personality == c1[k].personality,
            forall|k: int|
                0 <= k < c1.len() ==> (#[trigger] c1[k]).personality == c0[k].personality,
            c1.len() == c0.len(),
            c0 == old(cies)@,
            f0 == old(fdes)@,
            fdes@ == f0,
            cv == crate::input_files::eh_frame::cie_views(c0),
            fv == crate::input_files::eh_frame::fde_views(f0),
            f0.len() > 0,
            used == used_cies(cv, fv, fv.len() as int),
        decreases cies.len() - i,
    {
        assert(used[i as int] == cies[i as int]@);
        if cies[i].is_alive {
            let len: u64 = cies[i].data.len() as u64;
            if len > 0xffff_ffff - off {
                proof {
                    lemma_cies_grow(used, i + 1, used.len() as int);
                    lemma_fdes_grow(
                        fv,
                        cies_end(used, used.len() as int),
                        0,
                        fv.len() as int,
                    );
                }
                return None;
            }
            cies[i].output_offset = off as u32;
            off = off + len;
        }
        i += 1;
    }
    assert(crate::input_files::eh_frame::cie_views(cies@) =~= placed_cies(used));
    let ghost mid = off as int;
    let mut i: usize = 0;
    while i < fdes.len()
        invariant
            i <= fdes.len(),
            fdes.len() == f0.len(),
            fv == crate::input_files::eh_frame::fde_views(f0),
            off == fdes_end(fv, mid, i as int),
            off <= u32::MAX,
            mid == cies_end(used, used.len() as int),
            forall|k: int| 0 <= k < i ==> (#[trigger] fdes[k])@ == placed_fdes(fv, mid)[k],
            forall|k: int| i <= k < fdes.len() ==> #[trigger] fdes[k] == f0[k],
            forall|k: int|
                0 <= k < f0.len() ==> (#[trigger] fdes[k]).isec == f0[k].isec && fdes[k].cie
                    == f0[k].cie && fdes[k].lsda == f0[k].lsda,
            f0 == old(fdes)@,
            c0 == old(cies)@,
            cies.len() == c0.len(),
            forall|k: int|
                0 <= k < c0.len() ==> (#[trigger] cies[k]).personality == c0[k].personality,
            cv == crate::input_files::eh_frame::cie_views(c0),
            f0.len() > 0,
            used == used_cies(cv, fv, fv.len() as int),
        decreases fdes.len() - i,
    {
        assert(fv[i as int] == fdes[i as int]@);
        let len: u64 = fdes[i].data.len() as u64;
        if len > 0xffff_ffff - off {
            proof {
                lemma_fdes_grow(fv, mid, i + 1, fv.len() as int);
            }
            return None;
        }
        fdes[i].output_offset = off as u32;
        off = off + len;
        i += 1;
    }
    assert(crate::input_files::eh_frame::fde_views(fdes@) =~= placed_fdes(fv, mid));
    Some(off as u32)
}

} // verus!
