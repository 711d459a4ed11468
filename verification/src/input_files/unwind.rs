//! Compact unwind records of object files.
use crate::arch::Arch;
use crate::input_files::{find_subsec, UnwindRecord};
use crate::input_sections::InputSection;
use crate::macho::consts::UNWIND_MODE_MASK;
use crate::macho::{MachRel, MachSection, NList, SectionView};
use crate::util::bytes;
use vstd::prelude::*;

verus! {

/// Why unwind information cannot be read.
#[derive(Clone, Copy, Debug, PartialEq, Eq, Structural)]
pub enum UnwindError {
    /// The section or a record reaches past the end of the file, or names
    /// a symbol that does not exist.
    Truncated,
    /// The __compact_unwind section is not made of whole entries.
    BadSize,
    /// A relocation of __compact_unwind is not one of the known fields.
    UnsupportedReloc,
    /// A record covers no known function.
    BadFunction,
    /// A personality function has no symbol.
    BadPersonality,
    /// A language-specific data area lies in no known section.
    BadLsda,
    /// A subtraction in __eh_frame is not a pair of symbols.
    FramePair,
    /// A subtraction in __eh_frame has a bad width.
    FrameFieldSize,
    /// __eh_frame has a relocation of an unknown type.
    FrameRelocType,
    /// A frame record uses the extended length form.
    FrameExtendedLength,
    /// A CIE declares an unknown LSDA pointer encoding.
    FrameLsdaEncoding,
    /// A CIE declares an unknown personality pointer encoding.
    FramePersonalityEncoding,
    /// A CIE has an unknown augmentation.
    FrameAugmentation,
    /// A personality relocation lies in no CIE.
    FrameStrayPersonality,
    /// A personality is not a symbol.
    FramePersonalityRef,
    /// An FDE points at no CIE.
    FrameCie,
    /// An FDE covers no known function.
    FrameFunction,
    /// An FDE's LSDA lies in no known section.
    FrameLsda,
}

/// The `n` relocation records from `off` on.
pub open spec fn rels_at(data: Seq<u8>, off: int, n: int) -> Seq<MachRel> {
    Seq::new(n as nat, |i: int| MachRel::at(data, off + 8 * i))
}

/// Reads `n` relocation records.
pub fn read_rels(data: &[u8], off: u32, n: u32) -> (r: Option<Vec<MachRel>>)
    ensures
        match r {
            Some(v) => v@ == rels_at(data@, off as int, n as int) && (n > 0 ==> off + 8 * n
                <= data.len()),
            None => n > 0 && off + 8 * n > data.len(),
        },
{
    let mut out: Vec<MachRel> = Vec::new();
    if n > 0 && off as u64 + 8 * n as u64 > data.len() as u64 {
        return None;
    }
    let mut i: u32 = 0;
    assert(out@ =~= rels_at(data@, off as int, 0));
    while i < n
        invariant
            i <= n,
            n > 0 ==> off + 8 * n <= data.len(),
            out@ == rels_at(data@, off as int, i as int),
        decreases n - i,
    {
        out.push(MachRel::read(data, off as usize + 8 * (i as usize)));
        i += 1;
        assert(out@ =~= rels_at(data@, off as int, i as int));
    }
    Some(out)
}

/// The subsection that holds `addr`, and the offset in it cut to 32 bits.
pub open spec fn locate(ext: Seq<(u64, u64)>, subsecs: Seq<usize>, addr: u64) -> Option<
    (usize, u32),
> {
    match super::subsec_in(ext, subsecs, addr) {
        Some((id, off)) => Some((id, bytes::word32(off as int))),
        None => None,
    }
}

/// Finds the subsection that holds `addr`.
pub fn find_local(isecs: &[InputSection], subsecs: &[usize], addr: u64) -> (r: Option<
    (usize, u32),
>)
    requires
        super::subsecs_exist(isecs@, subsecs@),
        super::in_address_order(super::extents(isecs@, subsecs@)),
    ensures
        r == locate(super::extents(isecs@, subsecs@), subsecs@, addr),
        r is Some ==> r.unwrap().0 < isecs.len(),
{
    match find_subsec(isecs, subsecs, addr) {
        Some((id, off)) => Some((id, bytes::low32(off))),
        None => None,
    }
}

/// The record of an entry before its relocations are read.
pub open spec fn blank_record(code_len: u32, encoding: u32) -> UnwindRecord {
    UnwindRecord {
        isec: usize::MAX,
        input_offset: 0,
        code_len,
        encoding,
        personality: None,
        lsda: None,
        fde: None,
    }
}

/// The entries of the section before their relocations are read.
pub open spec fn blank_records(data: Seq<u8>, off: int, n: int) -> Seq<UnwindRecord> {
    Seq::new(
        n as nat,
        |i: int|
            blank_record(
                bytes::u32_at(data, off + 32 * i + 8),
                bytes::u32_at(data, off + 32 * i + 12),
            ),
    )
}

/// The first external nlist entry from `i` on with the given value.
pub open spec fn external_at(nlists: Seq<NList>, value: u64, i: int) -> Option<int>
    decreases nlists.len() - i,
{
    if i >= nlists.len() {
        None
    } else if nlists[i].external() && nlists[i].n_value == value {
        Some(i)
    } else {
        external_at(nlists, value, i + 1)
    }
}

/// Finds the first external nlist entry with the given value.
fn find_external(nlists: &[NList], value: u64) -> (r: Option<usize>)
    ensures
        match r {
            Some(i) => external_at(nlists@, value, 0) == Some(i as int) && i < nlists.len(),
            None => external_at(nlists@, value, 0) is None,
        },
{
    let mut i: usize = 0;
    while i < nlists.len()
        invariant
            i <= nlists.len(),
            external_at(nlists@, value, 0) == external_at(nlists@, value, i as int),
        decreases nlists.len() - i,
    {
        if nlists[i].is_extern() && nlists[i].n_value == value {
            return Some(i);
        }
        i += 1;
    }
    None
}

/// The address that a pointer field holds: for a reference to a symbol,
/// the symbol's own address plus what the field holds.
pub open spec fn pointee(nlists: Seq<NList>, r: MachRel, value: u64) -> u64 {
    if r.external() {
        bytes::word64(nlists[r.symnum() as int].n_value + value)
    } else {
        value
    }
}

/// The records after the pointer field that `r` sets has been read.
pub open spec fn record_step(
    hdr: SectionView,
    ext: Seq<(u64, u64)>,
    subsecs: Seq<usize>,
    nlists: Seq<NList>,
    data: Seq<u8>,
    records: Seq<UnwindRecord>,
    r: MachRel,
) -> Result<Seq<UnwindRecord>, UnwindError> {
    let idx = r.r_address as int / 32;
    let field = r.r_address as int % 32;
    let value = bytes::u64_at(data, hdr.offset + r.r_address);
    if r.r_address >= hdr.size || r.p2size() != 3 {
        Err(UnwindError::UnsupportedReloc)
    } else if hdr.offset + r.r_address + 8 > data.len() {
        Err(UnwindError::Truncated)
    } else if field != 16 && r.external() && r.symnum() >= nlists.len() {
        Err(UnwindError::Truncated)
    } else if field == 0 {
        match locate(ext, subsecs, pointee(nlists, r, value)) {
            Some((isec, off)) => Ok(
                records.update(
                    idx,
                    UnwindRecord { isec, input_offset: off, ..records[idx] },
                ),
            ),
            None => Err(UnwindError::BadFunction),
        }
    } else if field == 16 {
        let sym = if r.external() {
            Some(r.symnum() as int)
        } else {
            external_at(nlists, value, 0)
        };
        match sym {
            Some(s) => Ok(
                records.update(
                    idx,
                    UnwindRecord { personality: Some(s as u32), ..records[idx] },
                ),
            ),
            None => Err(UnwindError::BadPersonality),
        }
    } else if field == 24 {
        match locate(ext, subsecs, pointee(nlists, r, value)) {
            Some(lsda) => Ok(
                records.update(idx, UnwindRecord { lsda: Some(lsda), ..records[idx] }),
            ),
            None => Err(UnwindError::BadLsda),
        }
    } else {
        Err(UnwindError::UnsupportedReloc)
    }
}

/// The records after the relocations from `k` on have been read.
pub open spec fn records_from(
    hdr: SectionView,
    ext: Seq<(u64, u64)>,
    subsecs: Seq<usize>,
    nlists: Seq<NList>,
    data: Seq<u8>,
    rels: Seq<MachRel>,
    k: int,
    records: Seq<UnwindRecord>,
) -> Result<Seq<UnwindRecord>, UnwindError>
    decreases rels.len() - k,
{
    if k < 0 || k >= rels.len() {
        Ok(records)
    } else {
        match record_step(hdr, ext, subsecs, nlists, data, records, rels[k]) {
            Ok(next) => records_from(hdr, ext, subsecs, nlists, data, rels, k + 1, next),
            Err(e) => Err(e),
        }
    }
}

/// Those records that cover a function and do not stand for DWARF unwind
/// information, which is synthesized from __eh_frame instead.
pub open spec fn usable(records: Seq<UnwindRecord>, dwarf: u32) -> Seq<UnwindRecord>
    decreases records.len(),
{
    if records.len() == 0 {
        Seq::empty()
    } else {
        let head = usable(records.drop_last(), dwarf);
        let rec = records.last();
        if rec.isec != usize::MAX && rec.encoding & UNWIND_MODE_MASK != dwarf {
            head.push(rec)
        } else {
            head
        }
    }
}

/// The unwind records of a __compact_unwind section: an array of 32-byte
/// entries whose pointer fields are set by relocations.
pub open spec fn compact_unwind(
    hdr: SectionView,
    ext: Seq<(u64, u64)>,
    subsecs: Seq<usize>,
    nlists: Seq<NList>,
    data: Seq<u8>,
    dwarf: u32,
) -> Result<Seq<UnwindRecord>, UnwindError> {
    let n = hdr.size as int / 32;
    if hdr.size % 32 != 0 {
        Err(UnwindError::BadSize)
    } else if hdr.offset + hdr.size > data.len() {
        Err(UnwindError::Truncated)
    } else if hdr.nreloc > 0 && hdr.reloff + 8 * hdr.nreloc > data.len() {
        Err(UnwindError::Truncated)
    } else {
        match records_from(
            hdr,
            ext,
            subsecs,
            nlists,
            data,
            rels_at(data, hdr.reloff as int, hdr.nreloc as int),
            0,
            blank_records(data, hdr.offset as int, n),
        ) {
            Ok(records) => Ok(usable(records, dwarf)),
            Err(e) => Err(e),
        }
    }
}

/// Reads the pointer field that `r` sets.
fn read_field(
    hdr: &MachSection,
    isecs: &[InputSection],
    subsecs: &[usize],
    nlists: &[NList],
    data: &[u8],
    records: &mut Vec<UnwindRecord>,
    r: &MachRel,
) -> (res: Result<(), UnwindError>)
    requires
        super::subsecs_exist(isecs@, subsecs@),
        super::in_address_order(super::extents(isecs@, subsecs@)),
        old(records).len() == hdr.size as int / 32,
        hdr.size % 32 == 0,
        nlists.len() <= u32::MAX,
    ensures
        match res {
            Ok(()) => record_step(
                hdr@,
                super::extents(isecs@, subsecs@),
                subsecs@,
                nlists@,
                data@,
                old(records)@,
                *r,
            ) == Ok::<Seq<UnwindRecord>, UnwindError>(final(records)@) && final(records).len()
                == old(records).len(),
            Err(e) => record_step(
                hdr@,
                super::extents(isecs@, subsecs@),
                subsecs@,
                nlists@,
                data@,
                old(records)@,
                *r,
            ) == Err::<Seq<UnwindRecord>, UnwindError>(e),
        },
{
    if r.r_address as u64 >= hdr.size || r.r_length() != 3 {
        return Err(UnwindError::UnsupportedReloc);
    }
    let idx: usize = (r.r_address / 32) as usize;
    let field: u32 = r.r_address % 32;
    let at: u64 = hdr.offset as u64 + r.r_address as u64;
    if at + 8 > data.len() as u64 {
        return Err(UnwindError::Truncated);
    }
    if field != 16 && r.is_extern() && r.r_symbolnum() as usize >= nlists.len() {
        return Err(UnwindError::Truncated);
    }
    let value: u64 = bytes::get64(data, at as usize);
    if field == 16 {
        let sym: Option<u32> = if r.is_extern() {
            Some(r.r_symbolnum())
        } else {
            match find_external(nlists, value) {
                Some(i) => Some(i as u32),
                None => None,
            }
        };
        return match sym {
            Some(s) => {
                let mut rec: UnwindRecord = records[idx];
                rec.personality = Some(s);
                records.set(idx, rec);
                Ok(())
            },
            None => Err(UnwindError::BadPersonality),
        };
    }
    let addr: u64 = if r.is_extern() {
        bytes::sum64(nlists[r.r_symbolnum() as usize].n_value, value)
    } else {
        value
    };
    if field == 0 {
        match find_local(isecs, subsecs, addr) {
            Some((isec, off)) => {
                let mut rec: UnwindRecord = records[idx];
                rec.isec = isec;
                rec.input_offset = off;
                records.set(idx, rec);
                Ok(())
            },
            None => Err(UnwindError::BadFunction),
        }
    } else if field == 24 {
        match find_local(isecs, subsecs, addr) {
            Some(lsda) => {
                let mut rec: UnwindRecord = records[idx];
                rec.lsda = Some(lsda);
                records.set(idx, rec);
                Ok(())
            },
            None => Err(UnwindError::BadLsda),
        }
    } else {
        Err(UnwindError::UnsupportedReloc)
    }
}

/// Parses a __LD,__compact_unwind section into unwind records.
pub fn parse_compact_unwind<E: Arch>(
    hdr: &MachSection,
    isecs: &[InputSection],
    subsecs: &[usize],
    nlists: &[NList],
    data: &[u8],
) -> (r: Result<Vec<UnwindRecord>, UnwindError>)
    requires
        super::subsecs_exist(isecs@, subsecs@),
        super::in_address_order(super::extents(isecs@, subsecs@)),
        nlists.len() <= u32::MAX,
    ensures
        match r {
            Ok(v) => compact_unwind(
                hdr@,
                super::extents(isecs@, subsecs@),
                subsecs@,
                nlists@,
                data@,
                E::info().unwind_mode_dwarf,
            ) == Ok::<Seq<UnwindRecord>, UnwindError>(v@),
            Err(e) => compact_unwind(
                hdr@,
                super::extents(isecs@, subsecs@),
                subsecs@,
                nlists@,
                data@,
                E::info().unwind_mode_dwarf,
            ) == Err::<Seq<UnwindRecord>, UnwindError>(e),
        },
{
    let dwarf: u32 = E::get_info().unwind_mode_dwarf;
    if hdr.size % 32 != 0 {
        return Err(UnwindError::BadSize);
    }
    let len: u64 = data.len() as u64;
    if hdr.size > len || hdr.offset as u64 > len - hdr.size {
        return Err(UnwindError::Truncated);
    }
    let n: usize = (hdr.size / 32) as usize;
    let mut records: Vec<UnwindRecord> = Vec::new();
    let base: usize = hdr.offset as usize;
    assert(records@ =~= blank_records(data@, base as int, 0));
    while records.len() < n
        invariant
            records.len() <= n,
            base + 32 * n <= data.len(),
            records@ == blank_records(data@, base as int, records.len() as int),
        decreases n - records.len(),
    {
        let p: usize = base + 32 * records.len();
        let ghost k = records.len() as int;
        records.push(
            UnwindRecord {
                isec: usize::MAX,
                input_offset: 0,
                code_len: bytes::get32(data, p + 8),
                encoding: bytes::get32(data, p + 12),
                personality: None,
                lsda: None,
                fde: None,
            },
        );
        assert(records@ =~= blank_records(data@, base as int, k + 1));
    }
    let rels: Vec<MachRel> = match read_rels(data, hdr.reloff, hdr.nreloc) {
        Some(v) => v,
        None => return Err(UnwindError::Truncated),
    };
    let ghost start = records@;
    let mut k: usize = 0;
    while k < rels.len()
        invariant
            k <= rels.len(),
            super::subsecs_exist(isecs@, subsecs@),
            super::in_address_order(super::extents(isecs@, subsecs@)),
            nlists.len() <= u32::MAX,
            records.len() == hdr.size as int / 32,
            hdr.size % 32 == 0,
            hdr.offset + hdr.size <= data.len(),
            hdr.nreloc > 0 ==> hdr.reloff + 8 * hdr.nreloc <= data.len(),
            rels@ == rels_at(data@, hdr.reloff as int, hdr.nreloc as int),
            start == blank_records(data@, hdr.offset as int, hdr.size as int / 32),
            records_from(hdr@, super::extents(isecs@, subsecs@), subsecs@, nlists@, data@, rels@, 0, start) == records_from(
                hdr@,
                super::extents(isecs@, subsecs@),
                subsecs@,
                nlists@,
                data@,
                rels@,
                k as int,
                records@,
            ),
        decreases rels.len() - k,
    {
        match read_field(hdr, isecs, subsecs, nlists, data, &mut records, &rels[k]) {
            Ok(()) => {},
            Err(e) => return Err(e),
        }
        k += 1;
    }
    let mut out: Vec<UnwindRecord> = Vec::new();
    let mut i: usize = 0;
    while i < records.len()
        invariant
            i <= records.len(),
            out@ == usable(records@.take(i as int), dwarf),
        decreases records.len() - i,
    {
        assert(records@.take(i + 1).drop_last() =~= records@.take(i as int));
        let rec: UnwindRecord = records[i];
        if rec.isec != usize::MAX && rec.encoding & UNWIND_MODE_MASK != dwarf {
            out.push(rec);
        }
        i += 1;
    }
    assert(records@.take(records.len() as int) =~= records@);
    Ok(out)
}

} // verus!
