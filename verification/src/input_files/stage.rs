//! Staging: parsing one object file without touching any linker state.
use crate::arch::{Arch, RelocError};
use crate::input_files::commands::{read_commands, Commands, SymtabInfo};
use crate::input_files::eh_frame::{parse_eh_frame, CieView, FdeView};
use crate::input_files::split::{find_split_points, is_kept, split_section, SplitError};
use crate::input_files::strtab::{symbol_name, validate_strtab};
use crate::input_files::unwind::{parse_compact_unwind, read_rels, UnwindError};
use crate::input_files::{find_subsec, section_is, Cie, Fde, StagedObject, UnwindRecord};
use crate::input_sections::{InputSection, IsecView, Reloc, RelocTarget};
use crate::macho::consts::MH_SUBSECTIONS_VIA_SYMBOLS;
use crate::macho::{MachHeader, MachRel, MachSection, NList, SectionView};
use crate::symbol::hash_key;
use crate::util::bytes;
use crate::util::order;
use vstd::prelude::*;
use vstd::string::*;

verus! {

/// Why an object cannot be staged.
#[derive(Clone, Copy, Debug, PartialEq, Eq, Structural)]
pub enum StageError {
    /// A part that the file's headers name is not in the file.
    Truncated,
    /// The object is for another CPU.
    IncompatibleCpu,
    /// The object has more pieces than can be numbered.
    TooLarge,
    /// A section cannot be split.
    Split(SplitError),
    /// Relocation records cannot be read.
    Reloc(RelocError),
    /// A relocation lies outside its section.
    RelocOutsideSection,
    /// A relocation refers to a section that is not kept.
    RelocDiscarded,
    /// Unwind information cannot be read.
    Unwind(UnwindError),
}

/// The `n` symbol table entries from `off` on.
pub open spec fn nlists_at(data: Seq<u8>, off: int, n: int) -> Seq<NList> {
    Seq::new(n as nat, |i: int| NList::at(data, off + 16 * i))
}

/// Reads `n` symbol table entries.
pub fn read_nlists(data: &[u8], off: u32, n: u32) -> (r: Option<Vec<NList>>)
    ensures
        match r {
            Some(v) => v@ == nlists_at(data@, off as int, n as int) && (n > 0 ==> off + 16 * n
                <= data.len()),
            None => n > 0 && off + 16 * n > data.len(),
        },
{
    let mut out: Vec<NList> = Vec::new();
    if n > 0 && off as u64 + 16 * n as u64 > data.len() as u64 {
        return None;
    }
    let mut i: u32 = 0;
    assert(out@ =~= nlists_at(data@, off as int, 0));
    while i < n
        invariant
            i <= n,
            n > 0 ==> off + 16 * n <= data.len(),
            out@ == nlists_at(data@, off as int, i as int),
        decreases n - i,
    {
        out.push(NList::read(data, off as usize + 16 * (i as usize)));
        i += 1;
        assert(out@ =~= nlists_at(data@, off as int, i as int));
    }
    Some(out)
}

/// The symbol table and the string table that the load commands name.
pub open spec fn symtab_of(data: Seq<u8>, cmd: Option<SymtabInfo>) -> Option<
    (Seq<NList>, Seq<u8>),
> {
    match cmd {
        None => Some((Seq::empty(), Seq::empty())),
        Some(c) => if (c.nsyms > 0 && c.symoff + 16 * c.nsyms > data.len()) || c.stroff
            + c.strsize > data.len() {
            None
        } else {
            let strtab = data.subrange(c.stroff as int, c.stroff + c.strsize);
            Some(
                (
                    nlists_at(data, c.symoff as int, c.nsyms as int),
                    super::strtab::validated(strtab),
                ),
            )
        },
    }
}

/// The addresses at which symbols split section `i`, if the object allows
/// splitting.
pub open spec fn points_of(nlists: Seq<NList>, split_ok: bool, i: int) -> Seq<u64> {
    if split_ok {
        super::split::split_points(nlists, i)
    } else {
        Seq::empty()
    }
}

/// The pieces of the sections from `i` on, after those in `acc`, and for
/// each section the range of its pieces.
pub open spec fn split_all(
    data: Seq<u8>,
    sects: Seq<SectionView>,
    nlists: Seq<NList>,
    split_ok: bool,
    keep_debug: bool,
    i: int,
    acc: Seq<IsecView>,
    ranges: Seq<(int, int)>,
) -> Result<(Seq<IsecView>, Seq<(int, int)>), SplitError>
    decreases sects.len() - i,
{
    let n = acc.len() as int;
    if i < 0 || i >= sects.len() {
        Ok((acc, ranges))
    } else if !super::split::kept(sects[i], keep_debug) {
        split_all(
            data,
            sects,
            nlists,
            split_ok,
            keep_debug,
            i + 1,
            acc,
            ranges.push((n, n)),
        )
    } else {
        match super::split::section_pieces(
            data,
            i,
            sects[i],
            points_of(nlists, split_ok, i),
            acc,
        ) {
            Ok(next) => split_all(
                data,
                sects,
                nlists,
                split_ok,
                keep_debug,
                i + 1,
                next,
                ranges.push((n, next.len() as int)),
            ),
            Err(e) => Err(e),
        }
    }
}

/// Piece ranges as integers.
pub open spec fn int_ranges(v: Seq<(usize, usize)>) -> Seq<(int, int)> {
    v.map_values(|r: (usize, usize)| (r.0 as int, r.1 as int))
}

/// The input addresses of the subsections.
pub open spec fn addresses(isecs: Seq<IsecView>) -> Seq<u64> {
    isecs.map_values(|s: IsecView| s.input_addr)
}

/// The subsections in address order.
pub open spec fn by_address(isecs: Seq<IsecView>) -> Seq<usize> {
    order::stable_order_of(addresses(isecs))
}

/// The address ranges of the listed subsections.
pub open spec fn listed(ext: Seq<(u64, u64)>, ids: Seq<usize>) -> Seq<(u64, u64)> {
    ids.map_values(|i: usize| ext[i as int])
}

/// True when the pieces of every section are in address order.
pub open spec fn ranges_ok(isecs: Seq<InputSection>, ranges: Seq<(usize, usize)>) -> bool {
    forall|k: int|
        0 <= k < ranges.len() ==> {
            let (lo, hi) = #[trigger] ranges[k];
            lo <= hi <= isecs.len() && forall|i: int, j: int|
                lo <= i < j < hi ==> (#[trigger] isecs[i]).input_addr < (
                #[trigger] isecs[j]).input_addr
        }
}

/// Splits all sections into subsections.
fn split_sections(
    data: &[u8],
    sects: &Vec<MachSection>,
    nlists: &Vec<NList>,
    split_ok: bool,
    keep_debug: bool,
) -> (r: Result<(Vec<InputSection>, Vec<(usize, usize)>), SplitError>)
    requires
        sects.len() < 0x8000_0000,
        nlists.len() <= u32::MAX,
        nlists.len() < usize::MAX,
    ensures
        match r {
            Ok((isecs, ranges)) => split_all(
                data@,
                crate::arch::section_views(sects@),
                nlists@,
                split_ok,
                keep_debug,
                0,
                Seq::empty(),
                Seq::empty(),
            ) == Ok::<(Seq<IsecView>, Seq<(int, int)>), SplitError>(
                (crate::input_sections::isec_views(isecs@), int_ranges(ranges@)),
            ) && ranges.len() == sects.len() && ranges_ok(isecs@, ranges@),
            Err(e) => split_all(
                data@,
                crate::arch::section_views(sects@),
                nlists@,
                split_ok,
                keep_debug,
                0,
                Seq::empty(),
                Seq::empty(),
            ) == Err::<(Seq<IsecView>, Seq<(int, int)>), SplitError>(e),
        },
{
    let ghost views = crate::arch::section_views(sects@);
    let mut points: Vec<Vec<u64>> = find_split_points(nlists.as_slice(), sects.len(), split_ok);
    let mut isecs: Vec<InputSection> = Vec::new();
    let mut ranges: Vec<(usize, usize)> = Vec::new();
    let mut i: usize = 0;
    proof {
        assert(crate::input_sections::isec_views(isecs@) =~= Seq::<IsecView>::empty());
        assert(int_ranges(ranges@) =~= Seq::<(int, int)>::empty());
        assert forall|k: int| 0 <= k < sects.len() implies (#[trigger] points[k]).len()
            <= nlists.len() by {
            lemma_split_points_len(nlists@, k);
        }
    }
    while i < sects.len()
        invariant
            i <= sects.len(),
            sects.len() < 0x8000_0000,
            nlists.len() <= u32::MAX,
            nlists.len() < usize::MAX,
            views == crate::arch::section_views(sects@),
            points.len() == sects.len(),
            forall|k: int|
                i <= k < sects.len() ==> (#[trigger] points[k])@ == points_of(
                    nlists@,
                    split_ok,
                    k,
                ),
            forall|k: int| i <= k < sects.len() ==> (#[trigger] points[k]).len() <= nlists.len(),
            ranges.len() == i,
            ranges_ok(isecs@, ranges@),
            split_all(
                data@,
                views,
                nlists@,
                split_ok,
                keep_debug,
                0,
                Seq::empty(),
                Seq::empty(),
            ) == split_all(
                data@,
                views,
                nlists@,
                split_ok,
                keep_debug,
                i as int,
                crate::input_sections::isec_views(isecs@),
                int_ranges(ranges@),
            ),
        decreases sects.len() - i,
    {
        assert(views[i as int] == sects[i as int]@);
        let lo: usize = isecs.len();
        let ghost old_ranges = int_ranges(ranges@);
        let ghost old_isecs = isecs@;
        if is_kept(&sects[i], keep_debug) {
            let mut pts: Vec<u64> = Vec::new();
            std::mem::swap(&mut pts, &mut points[i]);
            match split_section(data, i, &sects[i], pts, &mut isecs) {
                Ok(()) => {},
                Err(e) => return Err(e),
            }
            proof {
                assert forall|k: int| 0 <= k < old_isecs.len() implies (
                #[trigger] isecs[k]).input_addr == old_isecs[k].input_addr by {
                    assert(crate::input_sections::isec_views(isecs@).take(
                        old_isecs.len() as int,
                    )[k] == crate::input_sections::isec_views(old_isecs)[k]);
                }
            }
        }
        ranges.push((lo, isecs.len()));
        proof {
            assert(int_ranges(ranges@) =~= old_ranges.push((lo as int, isecs.len() as int)));
        }
        i += 1;
    }
    Ok((isecs, ranges))
}

proof fn lemma_split_points_len(nlists: Seq<NList>, i: int)
    ensures
        super::split::split_points(nlists, i).len() <= nlists.len(),
    decreases nlists.len(),
{
    if nlists.len() > 0 {
        lemma_split_points_len(nlists.drop_last(), i);
    }
}

/// Where a relocation of a section goes: the subsection that holds the
/// relocated field, and the relocation with its offset and its target
/// rebased to subsections.
pub open spec fn place_reloc(
    sects: Seq<SectionView>,
    sect: SectionView,
    range: (int, int),
    ext: Seq<(u64, u64)>,
    subsecs: Seq<usize>,
    r: Reloc,
) -> Result<(int, Reloc), StageError> {
    match super::range_at(
        ext.subrange(range.0, range.1),
        bytes::word64(sect.addr + r.offset),
    ) {
        None => Err(StageError::RelocOutsideSection),
        Some((k, off)) => {
            let r1 = Reloc { offset: bytes::word32(off as int), ..r };
            match r.refers_to() {
                RelocTarget::Sym(_i) => Ok((range.0 + k, r1)),
                RelocTarget::Section(pos) => if pos >= sects.len() {
                    Err(StageError::RelocDiscarded)
                } else {
                    match super::subsec_in(
                        listed(ext, subsecs),
                        subsecs,
                        bytes::word64(sects[pos as int].addr + r.addend),
                    ) {
                        None => Err(StageError::RelocDiscarded),
                        Some((sub, toff)) => Ok(
                            (
                                range.0 + k,
                                Reloc {
                                    target: RelocTarget::Section(sub as u32).packed(),
                                    addend: bytes::signed64(toff) as i64,
                                    ..r1
                                },
                            ),
                        ),
                    }
                },
            }
        },
    }
}

/// The subsections after the relocations of one section from `k` on are
/// distributed.
pub open spec fn place_relocs(
    sects: Seq<SectionView>,
    sect: SectionView,
    range: (int, int),
    ext: Seq<(u64, u64)>,
    subsecs: Seq<usize>,
    rels: Seq<Reloc>,
    k: int,
    isecs: Seq<IsecView>,
) -> Result<Seq<IsecView>, StageError>
    decreases rels.len() - k,
{
    if k < 0 || k >= rels.len() {
        Ok(isecs)
    } else {
        match place_reloc(sects, sect, range, ext, subsecs, rels[k]) {
            Err(e) => Err(e),
            Ok((sub, r)) => place_relocs(
                sects,
                sect,
                range,
                ext,
                subsecs,
                rels,
                k + 1,
                isecs.update(
                    sub,
                    IsecView { relocs: isecs[sub].relocs.push(r), ..isecs[sub] },
                ),
            ),
        }
    }
}

/// The subsections after the relocations of the sections from `i` on are
/// distributed.
pub open spec fn place_all<E: Arch>(
    data: Seq<u8>,
    sects: Seq<SectionView>,
    ranges: Seq<(int, int)>,
    ext: Seq<(u64, u64)>,
    subsecs: Seq<usize>,
    i: int,
    isecs: Seq<IsecView>,
) -> Result<Seq<IsecView>, StageError>
    decreases sects.len() - i,
{
    if i < 0 || i >= sects.len() {
        Ok(isecs)
    } else if ranges[i].0 == ranges[i].1 || sects[i].nreloc == 0 {
        place_all::<E>(data, sects, ranges, ext, subsecs, i + 1, isecs)
    } else if sects[i].reloff + 8 * sects[i].nreloc > data.len() {
        Err(StageError::Truncated)
    } else {
        match E::relocs_of(
            sects,
            sects[i],
            data,
            super::unwind::rels_at(data, sects[i].reloff as int, sects[i].nreloc as int),
        ) {
            Err(e) => Err(StageError::Reloc(e)),
            Ok(rels) => match place_relocs(
                sects,
                sects[i],
                ranges[i],
                ext,
                subsecs,
                rels,
                0,
                isecs,
            ) {
                Err(e) => Err(e),
                Ok(next) => place_all::<E>(data, sects, ranges, ext, subsecs, i + 1, next),
            },
        }
    }
}

/// What distributing relocations keeps: the address ranges of the
/// subsections, and the lists of them.
pub open spec fn layout_ok(
    isecs: Seq<InputSection>,
    ext: Seq<(u64, u64)>,
    ids: Seq<usize>,
    subsecs: Seq<usize>,
    ranges: Seq<(usize, usize)>,
) -> bool {
    &&& isecs.len() < 0x8000_0000
    &&& crate::input_sections::isec_extents(crate::input_sections::isec_views(isecs)) == ext
    &&& ids.len() == isecs.len()
    &&& forall|i: int| 0 <= i < ids.len() ==> (#[trigger] ids[i]) == i
    &&& super::subsecs_exist(isecs, subsecs)
    &&& super::in_address_order(super::extents(isecs, subsecs))
    &&& ranges_ok(isecs, ranges)
}

/// Distributes one relocation.
fn place_one(
    sects: &Vec<MachSection>,
    sect: &MachSection,
    range: (usize, usize),
    ids: &Vec<usize>,
    subsecs: &Vec<usize>,
    isecs: &Vec<InputSection>,
    rel: &Reloc,
    Ghost(ext): Ghost<Seq<(u64, u64)>>,
    Ghost(ranges): Ghost<Seq<(usize, usize)>>,
) -> (r: Result<(usize, Reloc), StageError>)
    requires
        layout_ok(isecs@, ext, ids@, subsecs@, ranges),
        ranges.contains(range),
    ensures
        match r {
            Ok((sub, x)) => place_reloc(
                crate::arch::section_views(sects@),
                sect@,
                (range.0 as int, range.1 as int),
                ext,
                subsecs@,
                *rel,
            ) == Ok::<(int, Reloc), StageError>((sub as int, x)) && sub < isecs.len(),
            Err(e) => place_reloc(
                crate::arch::section_views(sects@),
                sect@,
                (range.0 as int, range.1 as int),
                ext,
                subsecs@,
                *rel,
            ) == Err::<(int, Reloc), StageError>(e),
        },
{
    let (lo, hi) = range;
    proof {
        let w = choose|w: int| 0 <= w < ranges.len() && ranges[w] == range;
        assert(ranges[w] == (lo, hi));
    }
    let loc: u64 = bytes::sum64(sect.addr, rel.offset as u64);
    let own: &[usize] = vstd::slice::slice_subrange(ids.as_slice(), lo, hi);
    proof {
        let views = crate::input_sections::isec_views(isecs@);
        assert forall|i: int| 0 <= i < isecs.len() implies ext[i] == (
            (#[trigger] isecs[i]).input_addr,
            isecs[i].size,
        ) by {
            assert(views[i] == isecs[i]@);
        }
        assert(super::extents(isecs@, own@) =~= ext.subrange(lo as int, hi as int));
        assert(super::extents(isecs@, subsecs@) =~= listed(ext, subsecs@));
        assert forall|i: int, j: int| 0 <= i <= j < own@.len() implies (#[trigger] super::extents(
            isecs@,
            own@,
        )[i]).0 <= (#[trigger] super::extents(isecs@, own@)[j]).0 by {
            if i < j {
                assert(isecs[lo + i].input_addr < isecs[lo + j].input_addr);
            }
        }
    }
    let (sub, off) = match find_subsec(isecs.as_slice(), own, loc) {
        Some(p) => p,
        None => return Err(StageError::RelocOutsideSection),
    };
    proof {
        let k = super::range_at(ext.subrange(lo as int, hi as int), loc).unwrap().0;
        lemma_range_at_index(ext.subrange(lo as int, hi as int), loc);
        assert(own[k] == lo + k);
    }
    let mut x: Reloc = *rel;
    x.offset = bytes::low32(off);
    match rel.target() {
        RelocTarget::Sym(_i) => Ok((sub, x)),
        RelocTarget::Section(pos) => {
            if pos as usize >= sects.len() {
                return Err(StageError::RelocDiscarded);
            }
            assert(crate::arch::section_views(sects@)[pos as int] == sects[pos as int]@);
            let taddr: u64 = bytes::offset_by(sects[pos as usize].addr, rel.addend);
            match find_subsec(isecs.as_slice(), subsecs.as_slice(), taddr) {
                None => Err(StageError::RelocDiscarded),
                Some((tsub, toff)) => {
                    x.target = RelocTarget::Section(tsub as u32).pack();
                    x.addend = bytes::to_signed64(toff);
                    Ok((sub, x))
                },
            }
        },
    }
}

proof fn lemma_range_at_index(ext: Seq<(u64, u64)>, addr: u64)
    ensures
        super::range_at(ext, addr) matches Some((k, off)) ==> 0 <= k < ext.len(),
{
    lemma_ranges_up_to_bound(ext, addr, ext.len() as int);
}

proof fn lemma_ranges_up_to_bound(ext: Seq<(u64, u64)>, addr: u64, n: int)
    requires
        0 <= n,
    ensures
        0 <= super::ranges_up_to(ext, addr, n) <= n,
    decreases n,
{
    if n > 0 && ext[n - 1].0 > addr {
        lemma_ranges_up_to_bound(ext, addr, n - 1);
    }
}

/// Adding a relocation to a subsection keeps the layout.
proof fn lemma_layout_kept(
    before: Seq<InputSection>,
    after: Seq<InputSection>,
    sub: int,
    r: Reloc,
    ext: Seq<(u64, u64)>,
    ids: Seq<usize>,
    subsecs: Seq<usize>,
    ranges: Seq<(usize, usize)>,
)
    requires
        layout_ok(before, ext, ids, subsecs, ranges),
        0 <= sub < before.len(),
        after.len() == before.len(),
        forall|i: int| 0 <= i < before.len() && i != sub ==> after[i] == before[i],
        after[sub].relocs@ == before[sub].relocs@.push(r),
        after[sub]@ == (IsecView { relocs: after[sub].relocs@, ..before[sub]@ }),
    ensures
        layout_ok(after, ext, ids, subsecs, ranges),
        crate::input_sections::isec_views(after) == crate::input_sections::isec_views(
            before,
        ).update(
            sub,
            IsecView {
                relocs: crate::input_sections::isec_views(before)[sub].relocs.push(r),
                ..crate::input_sections::isec_views(before)[sub]
            },
        ),
{
    let b = crate::input_sections::isec_views(before);
    let a = crate::input_sections::isec_views(after);
    assert(a =~= b.update(sub, IsecView { relocs: b[sub].relocs.push(r), ..b[sub] }));
    assert forall|i: int| 0 <= i < before.len() implies (#[trigger] after[i]).input_addr
        == before[i].input_addr && after[i].size == before[i].size by {
        assert(after[i]@.input_addr == before[i]@.input_addr);
        assert(after[i]@.size == before[i]@.size);
    }
    assert(crate::input_sections::isec_extents(a) =~= crate::input_sections::isec_extents(b));
    assert(super::extents(after, subsecs) =~= super::extents(before, subsecs));
}

/// Distributes the relocations of all sections.
fn place_all_relocs<E: Arch>(
    data: &[u8],
    sects: &Vec<MachSection>,
    ranges: &Vec<(usize, usize)>,
    ids: &Vec<usize>,
    subsecs: &Vec<usize>,
    isecs: &mut Vec<InputSection>,
    Ghost(ext): Ghost<Seq<(u64, u64)>>,
) -> (r: Result<(), StageError>)
    requires
        layout_ok(old(isecs)@, ext, ids@, subsecs@, ranges@),
        ranges.len() == sects.len(),
        sects.len() < 0x8000_0000,
    ensures
        match r {
            Ok(()) => place_all::<E>(
                data@,
                crate::arch::section_views(sects@),
                int_ranges(ranges@),
                ext,
                subsecs@,
                0,
                crate::input_sections::isec_views(old(isecs)@),
            ) == Ok::<Seq<IsecView>, StageError>(
                crate::input_sections::isec_views(final(isecs)@),
            ) && layout_ok(final(isecs)@, ext, ids@, subsecs@, ranges@),
            Err(e) => place_all::<E>(
                data@,
                crate::arch::section_views(sects@),
                int_ranges(ranges@),
                ext,
                subsecs@,
                0,
                crate::input_sections::isec_views(old(isecs)@),
            ) == Err::<Seq<IsecView>, StageError>(e),
        },
{
    let ghost views = crate::arch::section_views(sects@);
    let ghost rs = int_ranges(ranges@);
    let ghost start = crate::input_sections::isec_views(isecs@);
    let mut i: usize = 0;
    while i < sects.len()
        invariant
            i <= sects.len(),
            ranges.len() == sects.len(),
            sects.len() < 0x8000_0000,
            views == crate::arch::section_views(sects@),
            rs == int_ranges(ranges@),
            start == crate::input_sections::isec_views(old(isecs)@),
            layout_ok(isecs@, ext, ids@, subsecs@, ranges@),
            place_all::<E>(data@, views, rs, ext, subsecs@, 0, start) == place_all::<E>(
                data@,
                views,
                rs,
                ext,
                subsecs@,
                i as int,
                crate::input_sections::isec_views(isecs@),
            ),
        decreases sects.len() - i,
    {
        let range: (usize, usize) = ranges[i];
        assert(views[i as int] == sects[i as int]@);
        assert(rs[i as int] == (range.0 as int, range.1 as int));
        assert(ranges@.contains(range));
        if range.0 != range.1 && sects[i].nreloc != 0 {
            let raw: Vec<MachRel> = match read_rels(data, sects[i].reloff, sects[i].nreloc) {
                Some(v) => v,
                None => return Err(StageError::Truncated),
            };
            let rels: Vec<Reloc> = match E::read_relocs(
                sects.as_slice(),
                &sects[i],
                data,
                raw.as_slice(),
            ) {
                Ok(v) => v,
                Err(e) => return Err(StageError::Reloc(e)),
            };
            let ghost mid = crate::input_sections::isec_views(isecs@);
            let mut k: usize = 0;
            while k < rels.len()
                invariant
                    k <= rels.len(),
                    i < sects.len(),
                    views == crate::arch::section_views(sects@),
                    views[i as int] == sects[i as int]@,
                    layout_ok(isecs@, ext, ids@, subsecs@, ranges@),
                    ranges@.contains(range),
                    rs[i as int] == (range.0 as int, range.1 as int),
                    range.0 != range.1,
                    views[i as int].nreloc != 0,
                    views[i as int].reloff + 8 * views[i as int].nreloc <= data.len(),
                    start == crate::input_sections::isec_views(old(isecs)@),
                    rs == int_ranges(ranges@),
                    E::relocs_of(
                        views,
                        views[i as int],
                        data@,
                        super::unwind::rels_at(
                            data@,
                            views[i as int].reloff as int,
                            views[i as int].nreloc as int,
                        ),
                    ) == Ok::<Seq<Reloc>, RelocError>(rels@),
                    place_all::<E>(data@, views, rs, ext, subsecs@, 0, start) == place_all::<E>(
                        data@,
                        views,
                        rs,
                        ext,
                        subsecs@,
                        i as int,
                        mid,
                    ),
                    place_relocs(
                        views,
                        views[i as int],
                        rs[i as int],
                        ext,
                        subsecs@,
                        rels@,
                        0,
                        mid,
                    ) == place_relocs(
                        views,
                        views[i as int],
                        rs[i as int],
                        ext,
                        subsecs@,
                        rels@,
                        k as int,
                        crate::input_sections::isec_views(isecs@),
                    ),
                decreases rels.len() - k,
            {
                let ghost before = isecs@;
                let (sub, x) = match place_one(
                    sects,
                    &sects[i],
                    range,
                    ids,
                    subsecs,
                    isecs,
                    &rels[k],
                    Ghost(ext),
                    Ghost(ranges@),
                ) {
                    Ok(p) => p,
                    Err(e) => return Err(e),
                };
                isecs[sub].relocs.push(x);
                proof {
                    assert(isecs[sub as int]@ =~= (IsecView {
                        relocs: isecs[sub as int].relocs@,
                        ..before[sub as int]@
                    }));
                    lemma_layout_kept(
                        before,
                        isecs@,
                        sub as int,
                        x,
                        ext,
                        ids@,
                        subsecs@,
                        ranges@,
                    );
                }
                k += 1;
            }
        }
        i += 1;
    }
    Ok(())
}

/// The names of the symbol table's entries.
pub open spec fn names_of(strtab: Seq<u8>, nlists: Seq<NList>) -> Seq<Seq<u8>> {
    nlists.map_values(|n: NList| super::strtab::name_at(strtab, n.n_strx))
}

/// The hash of each extern non-stab name, and 0 for the others.
pub open spec fn hashes_of(strtab: Seq<u8>, nlists: Seq<NList>) -> Seq<u64> {
    nlists.map_values(
        |n: NList|
            if !n.stab() && n.external() {
                crate::symbol::xxh3(super::strtab::name_at(strtab, n.n_strx))
            } else {
                0
            },
    )
}

/// Reads the names of the symbol table's entries, and their hashes.
fn read_names(strtab: &[u8], nlists: &Vec<NList>) -> (r: (Vec<Vec<u8>>, Vec<u64>))
    ensures
        bytes::views(r.0@) == names_of(strtab@, nlists@),
        r.1@ == hashes_of(strtab@, nlists@),
{
    let mut names: Vec<Vec<u8>> = Vec::new();
    let mut hashes: Vec<u64> = Vec::new();
    let mut i: usize = 0;
    while i < nlists.len()
        invariant
            i <= nlists.len(),
            names.len() == i,
            hashes.len() == i,
            forall|k: int| 0 <= k < i ==> (#[trigger] names[k])@ == names_of(strtab@, nlists@)[k],
            forall|k: int| 0 <= k < i ==> (#[trigger] hashes[k]) == hashes_of(strtab@, nlists@)[k],
        decreases nlists.len() - i,
    {
        let n: NList = nlists[i];
        let name: Vec<u8> = symbol_name(strtab, &n);
        let hash: u64 = if !n.is_stab() && n.is_extern() {
            hash_key(name.as_slice())
        } else {
            0
        };
        names.push(name);
        hashes.push(hash);
        i += 1;
    }
    assert(bytes::views(names@) =~= names_of(strtab@, nlists@));
    assert(hashes@ =~= hashes_of(strtab@, nlists@));
    (names, hashes)
}

/// The first section from `i` on with the given names.
pub open spec fn first_section(
    sects: Seq<SectionView>,
    segname: Seq<u8>,
    sectname: Seq<u8>,
    i: int,
) -> Option<int>
    decreases sects.len() - i,
{
    if i >= sects.len() {
        None
    } else if super::is_section(sects[i], segname, sectname) {
        Some(i)
    } else {
        first_section(sects, segname, sectname, i + 1)
    }
}

/// Finds the first section with the given names.
pub fn find_named(sects: &Vec<MachSection>, segname: &str, sectname: &str) -> (r: Option<usize>)
    ensures
        match r {
            Some(i) => first_section(
                crate::arch::section_views(sects@),
                segname.spec_bytes(),
                sectname.spec_bytes(),
                0,
            ) == Some(i as int) && i < sects.len(),
            None => first_section(
                crate::arch::section_views(sects@),
                segname.spec_bytes(),
                sectname.spec_bytes(),
                0,
            ) is None,
        },
{
    let ghost views = crate::arch::section_views(sects@);
    let mut i: usize = 0;
    while i < sects.len()
        invariant
            i <= sects.len(),
            views == crate::arch::section_views(sects@),
            first_section(views, segname.spec_bytes(), sectname.spec_bytes(), 0) == first_section(
                views,
                segname.spec_bytes(),
                sectname.spec_bytes(),
                i as int,
            ),
        decreases sects.len() - i,
    {
        assert(views[i as int] == sects[i as int]@);
        if section_is(&sects[i], segname, sectname) {
            return Some(i);
        }
        i += 1;
    }
    None
}

/// The flags word of the first __objc_imageinfo section from `i` on.
pub open spec fn image_info(data: Seq<u8>, sects: Seq<SectionView>, i: int) -> Result<
    Option<u32>,
    StageError,
>
    decreases sects.len() - i,
{
    if i >= sects.len() {
        Ok(None)
    } else if sects[i].sectname == "__objc_imageinfo".spec_bytes() {
        if sects[i].offset + 8 > data.len() {
            Err(StageError::Truncated)
        } else {
            Ok(Some(bytes::u32_at(data, sects[i].offset + 4)))
        }
    } else {
        image_info(data, sects, i + 1)
    }
}

/// Reads the flags word of the object's __objc_imageinfo, if it has one.
fn read_image_info(data: &[u8], sects: &Vec<MachSection>) -> (r: Result<Option<u32>, StageError>)
    ensures
        r == image_info(data@, crate::arch::section_views(sects@), 0),
{
    let ghost views = crate::arch::section_views(sects@);
    let mut i: usize = 0;
    while i < sects.len()
        invariant
            i <= sects.len(),
            views == crate::arch::section_views(sects@),
            image_info(data@, views, 0) == image_info(data@, views, i as int),
        decreases sects.len() - i,
    {
        assert(views[i as int] == sects[i as int]@);
        if bytes::same(sects[i].sectname.as_slice(), "__objc_imageinfo".as_bytes()) {
            let off: u64 = sects[i].offset as u64;
            if off + 8 > data.len() as u64 {
                return Err(StageError::Truncated);
            }
            return Ok(Some(bytes::get32(data, off as usize + 4)));
        }
        i += 1;
    }
    Ok(None)
}

/// A staged object, as mathematical values.
#[verifier::ext_equal]
pub struct StagedView {
    pub sect_hdrs: Seq<SectionView>,
    pub linker_options: Seq<Seq<Seq<u8>>>,
    pub isecs: Seq<IsecView>,
    pub subsecs: Seq<usize>,
    pub nlists: Seq<NList>,
    pub sym_names: Seq<Seq<u8>>,
    pub sym_hashes: Seq<u64>,
    pub unwind: Seq<UnwindRecord>,
    pub cies: Seq<CieView>,
    pub fdes: Seq<FdeView>,
    pub objc_image_info: Option<u32>,
    pub has_debug_info: bool,
    pub dice: Seq<(u32, u16, u16)>,
    pub loh: Seq<(u8, Seq<u64>)>,
}

impl View for StagedObject {
    type V = StagedView;

    open spec fn view(&self) -> StagedView {
        StagedView {
            sect_hdrs: crate::arch::section_views(self.sect_hdrs@),
            linker_options: super::commands::option_views(self.linker_options@),
            isecs: crate::input_sections::isec_views(self.isecs@),
            subsecs: self.subsecs@,
            nlists: self.nlists@,
            sym_names: bytes::views(self.sym_names@),
            sym_hashes: self.sym_hashes@,
            unwind: self.unwind@,
            cies: super::eh_frame::cie_views(self.cies@),
            fdes: super::eh_frame::fde_views(self.fdes@),
            objc_image_info: self.objc_image_info,
            has_debug_info: self.has_debug_info,
            dice: self.dice@,
            loh: super::commands::loh_views(self.loh@),
        }
    }
}

/// The unwind information of an object: its CIEs, FDEs and unwind records,
/// the compact records first.
pub open spec fn unwind_of<E: Arch>(
    data: Seq<u8>,
    sects: Seq<SectionView>,
    nlists: Seq<NList>,
    ext: Seq<(u64, u64)>,
    subsecs: Seq<usize>,
) -> Result<(Seq<CieView>, Seq<FdeView>, Seq<UnwindRecord>), UnwindError> {
    let compact = match first_section(
        sects,
        "__LD".spec_bytes(),
        "__compact_unwind".spec_bytes(),
        0,
    ) {
        None => Ok(Seq::empty()),
        Some(i) => super::unwind::compact_unwind(
            sects[i],
            ext,
            subsecs,
            nlists,
            data,
            E::info().unwind_mode_dwarf,
        ),
    };
    match compact {
        Err(e) => Err(e),
        Ok(records) => match first_section(
            sects,
            "__TEXT".spec_bytes(),
            "__eh_frame".spec_bytes(),
            0,
        ) {
            None => Ok((Seq::empty(), Seq::empty(), records)),
            Some(i) => super::eh_frame::eh_frame(
                E::info(),
                sects[i],
                ext,
                subsecs,
                nlists,
                data,
                records,
            ),
        },
    }
}

/// Reads the unwind information of an object.
fn read_unwind<E: Arch>(
    data: &[u8],
    sects: &Vec<MachSection>,
    nlists: &Vec<NList>,
    isecs: &Vec<InputSection>,
    subsecs: &Vec<usize>,
) -> (r: Result<(Vec<Cie>, Vec<Fde>, Vec<UnwindRecord>), UnwindError>)
    requires
        super::subsecs_exist(isecs@, subsecs@),
        super::in_address_order(super::extents(isecs@, subsecs@)),
        nlists.len() <= u32::MAX,
    ensures
        match r {
            Ok((cies, fdes, unwind)) => unwind_of::<E>(
                data@,
                crate::arch::section_views(sects@),
                nlists@,
                super::extents(isecs@, subsecs@),
                subsecs@,
            ) == Ok::<(Seq<CieView>, Seq<FdeView>, Seq<UnwindRecord>), UnwindError>(
                (
                    super::eh_frame::cie_views(cies@),
                    super::eh_frame::fde_views(fdes@),
                    unwind@,
                ),
            ),
            Err(e) => unwind_of::<E>(
                data@,
                crate::arch::section_views(sects@),
                nlists@,
                super::extents(isecs@, subsecs@),
                subsecs@,
            ) == Err::<(Seq<CieView>, Seq<FdeView>, Seq<UnwindRecord>), UnwindError>(e),
        },
{
    let ghost views = crate::arch::section_views(sects@);
    let mut unwind: Vec<UnwindRecord> = match find_named(sects, "__LD", "__compact_unwind") {
        None => Vec::new(),
        Some(i) => {
            assert(views[i as int] == sects[i as int]@);
            match parse_compact_unwind::<E>(
                &sects[i],
                isecs.as_slice(),
                subsecs.as_slice(),
                nlists.as_slice(),
                data,
            ) {
                Ok(v) => v,
                Err(e) => return Err(e),
            }
        },
    };
    match find_named(sects, "__TEXT", "__eh_frame") {
        None => {
            let cies: Vec<Cie> = Vec::new();
            let fdes: Vec<Fde> = Vec::new();
            assert(super::eh_frame::cie_views(cies@) =~= Seq::<CieView>::empty());
            assert(super::eh_frame::fde_views(fdes@) =~= Seq::<FdeView>::empty());
            Ok((cies, fdes, unwind))
        },
        Some(i) => {
            assert(views[i as int] == sects[i as int]@);
            match parse_eh_frame::<E>(
                &sects[i],
                isecs.as_slice(),
                subsecs.as_slice(),
                nlists.as_slice(),
                data,
                &mut unwind,
            ) {
                Ok((cies, fdes)) => Ok((cies, fdes, unwind)),
                Err(e) => Err(e),
            }
        },
    }
}

/// What an object file holds, once its load commands, symbols and sections
/// are known.
pub open spec fn staged_parts<E: Arch>(
    data: Seq<u8>,
    split_ok: bool,
    keep_debug: bool,
    c: super::commands::CommandsView,
    nlists: Seq<NList>,
    strtab: Seq<u8>,
) -> Result<StagedView, StageError> {
    if c.sect_hdrs.len() >= 0x8000_0000 {
        Err(StageError::TooLarge)
    } else {
        match split_all(
            data,
            c.sect_hdrs,
            nlists,
            split_ok,
            keep_debug,
            0,
            Seq::empty(),
            Seq::empty(),
        ) {
            Err(e) => Err(StageError::Split(e)),
            Ok((pieces, ranges)) => if pieces.len() >= 0x8000_0000 {
                Err(StageError::TooLarge)
            } else {
                let ext = crate::input_sections::isec_extents(pieces);
                let subsecs = by_address(pieces);
                match place_all::<E>(data, c.sect_hdrs, ranges, ext, subsecs, 0, pieces) {
                    Err(e) => Err(e),
                    Ok(isecs) => match unwind_of::<E>(
                        data,
                        c.sect_hdrs,
                        nlists,
                        listed(ext, subsecs),
                        subsecs,
                    ) {
                        Err(e) => Err(StageError::Unwind(e)),
                        Ok((cies, fdes, unwind)) => match image_info(data, c.sect_hdrs, 0) {
                            Err(e) => Err(e),
                            Ok(info) => Ok(
                                StagedView {
                                    sect_hdrs: c.sect_hdrs,
                                    linker_options: c.linker_options,
                                    isecs,
                                    subsecs,
                                    nlists,
                                    sym_names: names_of(strtab, nlists),
                                    sym_hashes: hashes_of(strtab, nlists),
                                    unwind,
                                    cies,
                                    fdes,
                                    objc_image_info: info,
                                    has_debug_info: first_section(
                                        c.sect_hdrs,
                                        "__DWARF".spec_bytes(),
                                        "__debug_info".spec_bytes(),
                                        0,
                                    ) is Some,
                                    dice: c.dice,
                                    loh: c.loh,
                                },
                            ),
                        },
                    },
                }
            },
        }
    }
}

/// What an object file holds.
pub open spec fn staged<E: Arch>(data: Seq<u8>, keep_debug: bool) -> Result<
    StagedView,
    StageError,
> {
    let hdr = MachHeader::at(data, 0);
    if data.len() < 32 {
        Err(StageError::Truncated)
    } else if hdr.cputype != E::info().cputype {
        Err(StageError::IncompatibleCpu)
    } else {
        match super::commands::commands_from(
            data,
            32,
            hdr.ncmds as nat,
            super::commands::no_commands(),
        ) {
            None => Err(StageError::Truncated),
            Some(c) => match symtab_of(data, c.symtab) {
                None => Err(StageError::Truncated),
                Some((nlists, strtab)) => staged_parts::<E>(
                    data,
                    hdr.flags & MH_SUBSECTIONS_VIA_SYMBOLS != 0,
                    keep_debug,
                    c,
                    nlists,
                    strtab,
                ),
            },
        }
    }
}

/// The numbers 0 to n-1.
fn count_up(n: usize) -> (r: Vec<usize>)
    ensures
        r.len() == n,
        forall|i: int| 0 <= i < n ==> (#[trigger] r[i]) == i,
{
    let mut out: Vec<usize> = Vec::new();
    while out.len() < n
        invariant
            out.len() <= n,
            forall|i: int| 0 <= i < out.len() ==> (#[trigger] out[i]) == i,
        decreases n - out.len(),
    {
        out.push(out.len());
    }
    out
}

/// Lists the subsections in address order.
fn sort_by_address(isecs: &Vec<InputSection>) -> (r: Vec<usize>)
    ensures
        r@ == by_address(crate::input_sections::isec_views(isecs@)),
        super::subsecs_exist(isecs@, r@),
        super::in_address_order(super::extents(isecs@, r@)),
{
    let mut keys: Vec<u64> = Vec::new();
    let mut i: usize = 0;
    while i < isecs.len()
        invariant
            i <= isecs.len(),
            keys.len() == i,
            forall|k: int| 0 <= k < i ==> keys[k] == (#[trigger] isecs[k]).input_addr,
        decreases isecs.len() - i,
    {
        keys.push(isecs[i].input_addr);
        i += 1;
    }
    let ghost views = crate::input_sections::isec_views(isecs@);
    assert(keys@ =~= addresses(views));
    let r: Vec<usize> = order::stable_order(keys.as_slice());
    proof {
        let ext = super::extents(isecs@, r@);
        assert forall|a: int, b: int| 0 <= a <= b < ext.len() implies (#[trigger] ext[a]).0 <= (
        #[trigger] ext[b]).0 by {
            if a < b {
                assert(order::item_before(keys@, r[a] as int, r[b] as int));
            }
        }
    }
    r
}

/// Stages an object whose load commands and symbols have been read.
fn stage_parts<E: Arch>(
    data: &[u8],
    split_ok: bool,
    keep_debug: bool,
    c: Commands,
    nlists: Vec<NList>,
    strtab: &[u8],
    name: Vec<u8>,
    parent: Option<Vec<u8>>,
    alive: bool,
    hidden: bool,
    priority: u32,
) -> (r: Result<StagedObject, StageError>)
    requires
        nlists.len() <= u32::MAX,
        nlists.len() < usize::MAX,
    ensures
        match r {
            Ok(st) => staged_parts::<E>(data@, split_ok, keep_debug, c@, nlists@, strtab@) == Ok::<
                StagedView,
                StageError,
            >(st@) && st.name == name && st.parent == parent && st.alive == alive && st.hidden
                == hidden && st.priority == priority && super::hashes_match(st),
            Err(e) => staged_parts::<E>(data@, split_ok, keep_debug, c@, nlists@, strtab@)
                == Err::<StagedView, StageError>(e),
        },
{
    if c.sect_hdrs.len() >= 0x8000_0000 {
        return Err(StageError::TooLarge);
    }
    let (mut isecs, ranges) = match split_sections(
        data,
        &c.sect_hdrs,
        &nlists,
        split_ok,
        keep_debug,
    ) {
        Ok(p) => p,
        Err(e) => return Err(StageError::Split(e)),
    };
    if isecs.len() >= 0x8000_0000 {
        return Err(StageError::TooLarge);
    }
    let ghost pieces = crate::input_sections::isec_views(isecs@);
    let ghost ext = crate::input_sections::isec_extents(pieces);
    let ids: Vec<usize> = count_up(isecs.len());
    let subsecs: Vec<usize> = sort_by_address(&isecs);
    match place_all_relocs::<E>(
        data,
        &c.sect_hdrs,
        &ranges,
        &ids,
        &subsecs,
        &mut isecs,
        Ghost(ext),
    ) {
        Ok(()) => {},
        Err(e) => return Err(e),
    }
    proof {
        let after = crate::input_sections::isec_views(isecs@);
        assert forall|i: int| 0 <= i < isecs.len() implies ext[i] == (
            (#[trigger] isecs[i]).input_addr,
            isecs[i].size,
        ) by {
            assert(after[i] == isecs[i]@);
        }
        assert(super::extents(isecs@, subsecs@) =~= listed(ext, subsecs@));
    }
    let (cies, fdes, unwind) = match read_unwind::<E>(
        data,
        &c.sect_hdrs,
        &nlists,
        &isecs,
        &subsecs,
    ) {
        Ok(t) => t,
        Err(e) => return Err(StageError::Unwind(e)),
    };
    let info: Option<u32> = match read_image_info(data, &c.sect_hdrs) {
        Ok(i) => i,
        Err(e) => return Err(e),
    };
    let debug: Option<usize> = find_named(&c.sect_hdrs, "__DWARF", "__debug_info");
    let (sym_names, sym_hashes) = read_names(strtab, &nlists);
    let st = StagedObject {
        name,
        parent,
        alive,
        hidden,
        priority,
        sect_hdrs: c.sect_hdrs,
        linker_options: c.linker_options,
        isecs,
        subsecs,
        nlists,
        sym_names,
        sym_hashes,
        unwind,
        cies,
        fdes,
        objc_image_info: info,
        has_debug_info: debug.is_some(),
        dice: c.dice,
        loh: c.loh,
    };
    proof {
        let names = names_of(strtab@, nlists@);
        assert(bytes::views(st.sym_names@).len() == st.sym_names.len());
        assert forall|i: int|
            0 <= i < st.nlists.len() && !st.nlists[i].stab() && st.nlists[i].external() implies
            #[trigger] st.sym_hashes[i] == crate::symbol::xxh3(st.sym_names[i]@) by {
            assert(bytes::views(st.sym_names@)[i] == names[i]);
        }
    }
    Ok(st)
}

/// Parses one object file without touching any linker state.
pub fn stage_object<E: Arch>(
    data: &[u8],
    name: Vec<u8>,
    parent: Option<Vec<u8>>,
    alive: bool,
    hidden: bool,
    priority: u32,
    keep_debug: bool,
) -> (r: Result<StagedObject, StageError>)
    ensures
        match r {
            Ok(st) => staged::<E>(data@, keep_debug) == Ok::<StagedView, StageError>(st@) && st.name
                == name && st.parent == parent && st.alive == alive && st.hidden == hidden
                && st.priority == priority && super::hashes_match(st),
            Err(e) => staged::<E>(data@, keep_debug) == Err::<StagedView, StageError>(e),
        },
{
    if data.len() < 32 {
        return Err(StageError::Truncated);
    }
    let hdr: MachHeader = MachHeader::read(data, 0);
    if hdr.cputype != E::get_info().cputype {
        return Err(StageError::IncompatibleCpu);
    }
    let c: Commands = match read_commands(data, 32, hdr.ncmds) {
        Some(c) => c,
        None => return Err(StageError::Truncated),
    };
    let split_ok: bool = hdr.flags & MH_SUBSECTIONS_VIA_SYMBOLS != 0;
    match c.symtab {
        None => {
            let none: Vec<u8> = Vec::new();
            let nlists: Vec<NList> = Vec::new();
            assert(none@ =~= Seq::<u8>::empty());
            assert(nlists@ =~= Seq::<NList>::empty());
            stage_parts::<E>(
                data,
                split_ok,
                keep_debug,
                c,
                nlists,
                none.as_slice(),
                name,
                parent,
                alive,
                hidden,
                priority,
            )
        },
        Some(cmd) => {
            let nlists: Vec<NList> = match read_nlists(data, cmd.symoff, cmd.nsyms) {
                Some(v) => v,
                None => return Err(StageError::Truncated),
            };
            let end: u64 = cmd.stroff as u64 + cmd.strsize as u64;
            if end > data.len() as u64 {
                return Err(StageError::Truncated);
            }
            let table: &[u8] = vstd::slice::slice_subrange(
                data,
                cmd.stroff as usize,
                end as usize,
            );
            let strtab: &[u8] = validate_strtab(table);
            stage_parts::<E>(
                data,
                split_ok,
                keep_debug,
                c,
                nlists,
                strtab,
                name,
                parent,
                alive,
                hidden,
                priority,
            )
        },
    }
}

} // verus!
