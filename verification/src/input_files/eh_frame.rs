//! DWARF frame records of object files.
use crate::arch::{Arch, ArchInfo};
use crate::input_files::unwind::{find_local, read_rels, UnwindError};
use crate::input_files::{try_uleb_at, Cie, Fde, UnwindRecord};
use crate::input_sections::{InputSection, UNSET};
use crate::macho::{MachRel, MachSection, NList, SectionView};
use crate::util::bytes;
use vstd::prelude::*;

verus! {

/// What a CIE holds.
#[verifier::ext_equal]
pub struct CieView {
    pub obj: u32,
    pub input_addr: u32,
    pub data: Seq<u8>,
    pub personality: Option<u32>,
    pub personality_offset: u32,
    pub lsda_size: u8,
    pub output_offset: u32,
    pub is_alive: bool,
}

impl View for Cie {
    type V = CieView;

    open spec fn view(&self) -> CieView {
        CieView {
            obj: self.obj,
            input_addr: self.input_addr,
            data: self.data@,
            personality: self.personality,
            personality_offset: self.personality_offset,
            lsda_size: self.lsda_size,
            output_offset: self.output_offset,
            is_alive: self.is_alive,
        }
    }
}

/// What an FDE holds.
#[verifier::ext_equal]
pub struct FdeView {
    pub obj: u32,
    pub input_addr: u32,
    pub data: Seq<u8>,
    pub cie: usize,
    pub isec: usize,
    pub func_offset: u32,
    pub code_len: u32,
    pub lsda: Option<(usize, u32)>,
    pub output_offset: u32,
}

impl View for Fde {
    type V = FdeView;

    open spec fn view(&self) -> FdeView {
        FdeView {
            obj: self.obj,
            input_addr: self.input_addr,
            data: self.data@,
            cie: self.cie,
            isec: self.isec,
            func_offset: self.func_offset,
            code_len: self.code_len,
            lsda: self.lsda,
            output_offset: self.output_offset,
        }
    }
}

/// What a list of CIEs holds.
pub open spec fn cie_views(v: Seq<Cie>) -> Seq<CieView> {
    v.map_values(|c: Cie| c@)
}

/// What a list of FDEs holds.
pub open spec fn fde_views(v: Seq<Fde>) -> Seq<FdeView> {
    v.map_values(|f: Fde| f@)
}

/// The contents after the subtraction pairs from `i` on are applied, so
/// that record contents become self-relative. GOT-relative personality
/// references stay for later.
pub open spec fn apply_pairs(
    info: ArchInfo,
    nlists: Seq<NList>,
    rels: Seq<MachRel>,
    i: int,
    c: Seq<u8>,
) -> Result<Seq<u8>, UnwindError>
    decreases rels.len() - i,
{
    if i < 0 || i >= rels.len() {
        Ok(c)
    } else {
        let r1 = rels[i];
        if r1.kind() == info.reloc_subtractor {
            if i + 1 >= rels.len() {
                Err(UnwindError::Truncated)
            } else {
                match apply_pair(info, nlists, r1, rels[i + 1], c) {
                    Ok(next) => apply_pairs(info, nlists, rels, i + 2, next),
                    Err(e) => Err(e),
                }
            }
        } else if r1.kind() == info.reloc_gotpc {
            apply_pairs(info, nlists, rels, i + 1, c)
        } else {
            Err(UnwindError::FrameRelocType)
        }
    }
}

/// The contents after one subtraction pair is applied: the distance
/// between the two symbols is added to the field.
pub open spec fn apply_pair(
    info: ArchInfo,
    nlists: Seq<NList>,
    r1: MachRel,
    r2: MachRel,
    c: Seq<u8>,
) -> Result<Seq<u8>, UnwindError> {
    let off = r1.r_address as int;
    if r2.kind() != info.reloc_unsigned || !r1.external() || !r2.external() {
        Err(UnwindError::FramePair)
    } else if r1.symnum() >= nlists.len() || r2.symnum() >= nlists.len() {
        Err(UnwindError::Truncated)
    } else {
        let delta = bytes::word64(
            nlists[r2.symnum() as int].n_value - nlists[r1.symnum() as int].n_value,
        );
        let low = bytes::word32(delta as int);
        if r1.p2size() == 2 {
            if off + 4 > c.len() {
                Err(UnwindError::Truncated)
            } else {
                Ok(
                    bytes::patched(
                        c,
                        off,
                        bytes::le32(bytes::word32(bytes::u32_at(c, off) + low)),
                    ),
                )
            }
        } else if r1.p2size() == 3 {
            if off + 8 > c.len() {
                Err(UnwindError::Truncated)
            } else {
                Ok(
                    bytes::patched(
                        c,
                        off,
                        bytes::le64(bytes::word64(bytes::u64_at(c, off) + bytes::signed32(low))),
                    ),
                )
            }
        } else {
            Err(UnwindError::FrameFieldSize)
        }
    }
}

/// Applies one subtraction pair.
fn do_pair(
    info: &ArchInfo,
    nlists: &[NList],
    r1: &MachRel,
    r2: &MachRel,
    c: &mut Vec<u8>,
) -> (r: Result<(), UnwindError>)
    ensures
        match r {
            Ok(()) => apply_pair(*info, nlists@, *r1, *r2, old(c)@) == Ok::<Seq<u8>, UnwindError>(
                final(c)@,
            ),
            Err(e) => apply_pair(*info, nlists@, *r1, *r2, old(c)@) == Err::<
                Seq<u8>,
                UnwindError,
            >(e),
        },
{
    if r2.r_type() != info.reloc_unsigned || !r1.is_extern() || !r2.is_extern() {
        return Err(UnwindError::FramePair);
    }
    let s1: usize = r1.r_symbolnum() as usize;
    let s2: usize = r2.r_symbolnum() as usize;
    if s1 >= nlists.len() || s2 >= nlists.len() {
        return Err(UnwindError::Truncated);
    }
    let delta: u64 = bytes::distance(nlists[s2].n_value, nlists[s1].n_value);
    let low: u32 = bytes::low32(delta);
    let off: usize = r1.r_address as usize;
    let width: u32 = r1.r_length();
    if width == 2 {
        if c.len() < 4 || off > c.len() - 4 {
            return Err(UnwindError::Truncated);
        }
        let val: u32 = bytes::get32(c.as_slice(), off);
        bytes::put32(c, off, bytes::low32(val as u64 + low as u64));
        Ok(())
    } else if width == 3 {
        if c.len() < 8 || off > c.len() - 8 {
            return Err(UnwindError::Truncated);
        }
        let val: u64 = bytes::get64(c.as_slice(), off);
        bytes::put64(c, off, bytes::offset_by(val, bytes::to_signed32(low)));
        Ok(())
    } else {
        Err(UnwindError::FrameFieldSize)
    }
}

/// Applies the subtraction pairs.
fn do_pairs(info: &ArchInfo, nlists: &[NList], rels: &[MachRel], c: &mut Vec<u8>) -> (r: Result<
    (),
    UnwindError,
>)
    ensures
        match r {
            Ok(()) => apply_pairs(*info, nlists@, rels@, 0, old(c)@) == Ok::<
                Seq<u8>,
                UnwindError,
            >(final(c)@),
            Err(e) => apply_pairs(*info, nlists@, rels@, 0, old(c)@) == Err::<
                Seq<u8>,
                UnwindError,
            >(e),
        },
{
    let mut i: usize = 0;
    while i < rels.len()
        invariant
            i <= rels.len(),
            apply_pairs(*info, nlists@, rels@, 0, old(c)@) == apply_pairs(
                *info,
                nlists@,
                rels@,
                i as int,
                c@,
            ),
        decreases rels.len() - i,
    {
        let r1: MachRel = rels[i];
        if r1.r_type() == info.reloc_subtractor {
            if i + 1 >= rels.len() {
                return Err(UnwindError::Truncated);
            }
            match do_pair(info, nlists, &r1, &rels[i + 1], c) {
                Ok(()) => {},
                Err(e) => return Err(e),
            }
            i += 2;
        } else if r1.r_type() == info.reloc_gotpc {
            i += 1;
        } else {
            return Err(UnwindError::FrameRelocType);
        }
    }
    Ok(())
}

/// A CIE whose augmentation has not been read.
pub open spec fn new_cie(input_addr: u32, data: Seq<u8>) -> CieView {
    CieView {
        obj: UNSET,
        input_addr,
        data,
        personality: None,
        personality_offset: 0,
        lsda_size: 0,
        output_offset: 0,
        is_alive: false,
    }
}

/// The CIEs and the raw FDEs of the section, each with its address, from
/// `pos` on: a zero ID marks a CIE, anything else is an FDE pointing back
/// at its CIE.
pub open spec fn records_from(
    addr: u64,
    c: Seq<u8>,
    pos: int,
    cies: Seq<CieView>,
    fdes: Seq<(u32, Seq<u8>)>,
) -> Result<(Seq<CieView>, Seq<(u32, Seq<u8>)>), UnwindError>
    decreases c.len() - pos,
{
    if pos < 0 || pos >= c.len() {
        Ok((cies, fdes))
    } else if pos + 4 > c.len() {
        Err(UnwindError::Truncated)
    } else {
        let len = bytes::u32_at(c, pos);
        if len == 0xffff_ffff {
            Err(UnwindError::FrameExtendedLength)
        } else if len < 4 || pos + 4 + len > c.len() {
            Err(UnwindError::Truncated)
        } else {
            let rec = c.subrange(pos, pos + 4 + len);
            let at = bytes::word32(addr + pos);
            if bytes::u32_at(rec, 4) == 0 {
                records_from(addr, c, pos + 4 + len, cies.push(new_cie(at, rec)), fdes)
            } else {
                records_from(addr, c, pos + 4 + len, cies, fdes.push((at, rec)))
            }
        }
    }
}

/// Raw FDEs with their addresses.
pub open spec fn raw_views(v: Seq<(u32, Vec<u8>)>) -> Seq<(u32, Seq<u8>)> {
    v.map_values(|f: (u32, Vec<u8>)| (f.0, f.1@))
}

/// Splits the section into records.
#[verifier::rlimit(60)]
fn split_records(addr: u64, c: &Vec<u8>) -> (r: Result<
    (Vec<Cie>, Vec<(u32, Vec<u8>)>),
    UnwindError,
>)
    ensures
        match r {
            Ok((cies, fdes)) => records_from(addr, c@, 0, Seq::empty(), Seq::empty()) == Ok::<
                (Seq<CieView>, Seq<(u32, Seq<u8>)>),
                UnwindError,
            >((cie_views(cies@), raw_views(fdes@))) && (forall|i: int|
                0 <= i < fdes.len() ==> 8 <= (#[trigger] fdes[i]).1.len()),
            Err(e) => records_from(addr, c@, 0, Seq::empty(), Seq::empty()) == Err::<
                (Seq<CieView>, Seq<(u32, Seq<u8>)>),
                UnwindError,
            >(e),
        },
{
    let mut cies: Vec<Cie> = Vec::new();
    let mut fdes: Vec<(u32, Vec<u8>)> = Vec::new();
    let mut pos: usize = 0;
    assert(cie_views(cies@) =~= Seq::<CieView>::empty());
    assert(raw_views(fdes@) =~= Seq::<(u32, Seq<u8>)>::empty());
    while pos < c.len()
        invariant
            pos <= c.len(),
            forall|i: int| 0 <= i < fdes.len() ==> 8 <= (#[trigger] fdes[i]).1.len(),
            records_from(addr, c@, 0, Seq::empty(), Seq::empty()) == records_from(
                addr,
                c@,
                pos as int,
                cie_views(cies@),
                raw_views(fdes@),
            ),
        decreases c.len() - pos,
    {
        let left: usize = c.len() - pos;
        if left < 4 {
            return Err(UnwindError::Truncated);
        }
        let len: u32 = bytes::get32(c.as_slice(), pos);
        if len == 0xffff_ffff {
            return Err(UnwindError::FrameExtendedLength);
        }
        if len < 4 || len as usize > left - 4 {
            return Err(UnwindError::Truncated);
        }
        let end: usize = pos + 4 + len as usize;
        let rec: Vec<u8> = bytes::copy_range(c.as_slice(), pos, end);
        let id: u32 = bytes::get32(rec.as_slice(), 4);
        let at: u32 = bytes::low32(bytes::sum64(addr, pos as u64));
        assert(at == bytes::word32(addr + pos)) by {
            reveal(bytes::word32);
            reveal(bytes::word64);
        }
        let ghost r = rec@;
        if id == 0 {
            let ghost before = cies@;
            cies.push(
                Cie {
                    obj: UNSET,
                    input_addr: at,
                    data: rec,
                    personality: None,
                    personality_offset: 0,
                    lsda_size: 0,
                    output_offset: 0,
                    is_alive: false,
                },
            );
            assert(cies[cies.len() - 1]@ =~= new_cie(at, r));
            assert(cie_views(cies@) =~= cie_views(before).push(new_cie(at, r)));
        } else {
            let ghost before = fdes@;
            fdes.push((at, rec));
            assert(raw_views(fdes@) =~= raw_views(before).push((at, r)));
        }
        pos = end;
    }
    Ok((cies, fdes))
}

/// Reading on through the augmentation string of a CIE: the LSDA pointer
/// size that it declares. `k` is the position in the string, `pos` in the
/// augmentation data.
pub open spec fn augmentation_from(data: Seq<u8>, k: int, end: int, pos: int, size: u8) -> Result<
    u8,
    UnwindError,
>
    decreases end - k,
{
    if k >= end {
        Ok(size)
    } else if data[k] == 0x4c {
        // 'L'
        if pos >= data.len() {
            Err(UnwindError::Truncated)
        } else {
            let enc = data[pos] % 16;
            if enc == 3 || enc == 0xb {
                augmentation_from(data, k + 1, end, pos + 1, 4)
            } else if enc == 0 {
                augmentation_from(data, k + 1, end, pos + 1, 8)
            } else {
                Err(UnwindError::FrameLsdaEncoding)
            }
        }
    } else if data[k] == 0x50 {
        // 'P', in the one known encoding: indirect, pc-relative, 4 bytes
        if pos >= data.len() {
            Err(UnwindError::Truncated)
        } else if data[pos] != 0x9b {
            Err(UnwindError::FramePersonalityEncoding)
        } else {
            augmentation_from(data, k + 1, end, pos + 5, size)
        }
    } else if data[k] == 0x52 {
        // 'R'
        augmentation_from(data, k + 1, end, pos + 1, size)
    } else {
        Err(UnwindError::FrameAugmentation)
    }
}

/// The position behind `n` ULEB128 values.
pub open spec fn skip_ulebs(data: Seq<u8>, pos: int, n: nat) -> Option<int>
    decreases n,
{
    if n == 0 {
        Some(pos)
    } else {
        match super::uleb_at(data, pos) {
            Some((_v, next)) => skip_ulebs(data, next, (n - 1) as nat),
            None => None,
        }
    }
}

/// The size of the LSDA pointer that a CIE declares, or 0. Only an
/// augmentation that starts with 'z' says so; the code and data alignment,
/// the return register and the augmentation length precede its data.
pub open spec fn declared_lsda_size(data: Seq<u8>) -> Result<u8, UnwindError> {
    if data.len() <= 9 || data[9] != 0x7a {
        Ok(0)
    } else {
        let end = bytes::index_of_byte(data, 0, 9);
        if end >= data.len() {
            Err(UnwindError::Truncated)
        } else {
            match skip_ulebs(data, end + 1, 4) {
                Some(pos) => augmentation_from(data, 10, end, pos, 0),
                None => Err(UnwindError::Truncated),
            }
        }
    }
}

/// Reads the LSDA pointer size that a CIE declares.
fn read_lsda_size(data: &Vec<u8>) -> (r: Result<u8, UnwindError>)
    ensures
        r == declared_lsda_size(data@),
{
    if data.len() <= 9 || data[9] != 0x7a {
        return Ok(0);
    }
    let end: usize = bytes::find_byte(data.as_slice(), 0, 9);
    if end >= data.len() {
        return Err(UnwindError::Truncated);
    }
    let mut pos: usize = end + 1;
    let mut n: u32 = 4;
    while n > 0
        invariant
            pos <= data.len(),
            n <= 4,
            skip_ulebs(data@, end + 1, 4) == skip_ulebs(data@, pos as int, n as nat),
            data.len() > 9,
            data[9] == 0x7a,
            end == bytes::index_of_byte(data@, 0, 9),
            end < data.len(),
        decreases n,
    {
        match try_uleb_at(data.as_slice(), pos) {
            Some((_v, next)) => {
                pos = next;
            },
            None => return Err(UnwindError::Truncated),
        }
        n -= 1;
    }
    let ghost start = pos as int;
    let mut at: u128 = pos as u128;
    let mut k: usize = 10;
    let mut size: u8 = 0;
    while k < end
        invariant
            10 <= k,
            end < data.len(),
            end == bytes::index_of_byte(data@, 0, 9),
            data.len() > 9,
            data[9] == 0x7a,
            at <= start + 5 * k,
            0 <= start <= data.len(),
            skip_ulebs(data@, end + 1, 4) == Some(start),
            augmentation_from(data@, 10, end as int, start, 0) == augmentation_from(
                data@,
                k as int,
                end as int,
                at as int,
                size,
            ),
        decreases end - k,
    {
        let ch: u8 = data[k];
        if ch == 0x4c {
            if at >= data.len() as u128 {
                return Err(UnwindError::Truncated);
            }
            let enc: u8 = data[at as usize] % 16;
            if enc == 3 || enc == 0xb {
                size = 4;
            } else if enc == 0 {
                size = 8;
            } else {
                return Err(UnwindError::FrameLsdaEncoding);
            }
            at += 1;
        } else if ch == 0x50 {
            if at >= data.len() as u128 {
                return Err(UnwindError::Truncated);
            }
            if data[at as usize] != 0x9b {
                return Err(UnwindError::FramePersonalityEncoding);
            }
            at += 5;
        } else if ch == 0x52 {
            at += 1;
        } else {
            return Err(UnwindError::FrameAugmentation);
        }
        k += 1;
    }
    Ok(size)
}

/// The CIEs with their declared LSDA pointer sizes, from `i` on.
pub open spec fn with_lsda_sizes(cies: Seq<CieView>, i: int) -> Result<Seq<CieView>, UnwindError>
    decreases cies.len() - i,
{
    if i < 0 || i >= cies.len() {
        Ok(cies)
    } else {
        match declared_lsda_size(cies[i].data) {
            Ok(0) => with_lsda_sizes(cies, i + 1),
            Ok(size) => with_lsda_sizes(
                cies.update(i, CieView { lsda_size: size, ..cies[i] }),
                i + 1,
            ),
            Err(e) => Err(e),
        }
    }
}

/// Reads the LSDA pointer size that each CIE declares.
fn read_lsda_sizes(cies: &mut Vec<Cie>) -> (r: Result<(), UnwindError>)
    ensures
        match r {
            Ok(()) => with_lsda_sizes(cie_views(old(cies)@), 0) == Ok::<
                Seq<CieView>,
                UnwindError,
            >(cie_views(final(cies)@)),
            Err(e) => with_lsda_sizes(cie_views(old(cies)@), 0) == Err::<
                Seq<CieView>,
                UnwindError,
            >(e),
        },
{
    let mut i: usize = 0;
    while i < cies.len()
        invariant
            i <= cies.len(),
            with_lsda_sizes(cie_views(old(cies)@), 0) == with_lsda_sizes(
                cie_views(cies@),
                i as int,
            ),
        decreases cies.len() - i,
    {
        let ghost before = cie_views(cies@);
        assert(before[i as int] == cies[i as int]@);
        match read_lsda_size(&cies[i].data) {
            Ok(size) => {
                if size != 0 {
                    cies[i].lsda_size = size;
                    assert(cie_views(cies@) =~= before.update(
                        i as int,
                        CieView { lsda_size: size, ..before[i as int] },
                    ));
                }
            },
            Err(e) => return Err(e),
        }
        i += 1;
    }
    Ok(())
}

/// The first CIE from `i` on whose bytes hold the address.
pub open spec fn cie_holding(cies: Seq<CieView>, addr: u32, i: int) -> Option<int>
    decreases cies.len() - i,
{
    if i >= cies.len() {
        None
    } else if cies[i].input_addr <= addr < cies[i].input_addr + cies[i].data.len() {
        Some(i)
    } else {
        cie_holding(cies, addr, i + 1)
    }
}

/// Finds the first CIE whose bytes hold the address.
fn find_cie_holding(cies: &Vec<Cie>, addr: u32) -> (r: Option<usize>)
    ensures
        match r {
            Some(i) => cie_holding(cie_views(cies@), addr, 0) == Some(i as int) && i < cies.len()
                && cies[i as int].input_addr <= addr,
            None => cie_holding(cie_views(cies@), addr, 0) is None,
        },
{
    let mut i: usize = 0;
    while i < cies.len()
        invariant
            i <= cies.len(),
            cie_holding(cie_views(cies@), addr, 0) == cie_holding(cie_views(cies@), addr, i as int),
        decreases cies.len() - i,
    {
        assert(cie_views(cies@)[i as int] == cies[i as int]@);
        if cies[i].input_addr <= addr && ((addr - cies[i].input_addr) as usize)
            < cies[i].data.len() {
            return Some(i);
        }
        i += 1;
    }
    None
}

/// The CIEs after the personality references from `k` on are recorded:
/// they appear as GOT-relative relocations inside a CIE.
pub open spec fn with_personalities(
    info: ArchInfo,
    addr: u64,
    rels: Seq<MachRel>,
    k: int,
    cies: Seq<CieView>,
) -> Result<Seq<CieView>, UnwindError>
    decreases rels.len() - k,
{
    if k < 0 || k >= rels.len() {
        Ok(cies)
    } else if rels[k].kind() != info.reloc_gotpc {
        with_personalities(info, addr, rels, k + 1, cies)
    } else {
        let at = bytes::word32(addr + rels[k].r_address);
        match cie_holding(cies, at, 0) {
            None => Err(UnwindError::FrameStrayPersonality),
            Some(c) => if !rels[k].external() {
                Err(UnwindError::FramePersonalityRef)
            } else {
                with_personalities(
                    info,
                    addr,
                    rels,
                    k + 1,
                    cies.update(
                        c,
                        CieView {
                            personality: Some(rels[k].symnum()),
                            personality_offset: (at - cies[c].input_addr) as u32,
                            ..cies[c]
                        },
                    ),
                )
            },
        }
    }
}

/// Records the personality references.
fn read_personalities(
    info: &ArchInfo,
    addr: u64,
    rels: &[MachRel],
    cies: &mut Vec<Cie>,
) -> (r: Result<(), UnwindError>)
    ensures
        match r {
            Ok(()) => with_personalities(*info, addr, rels@, 0, cie_views(old(cies)@)) == Ok::<
                Seq<CieView>,
                UnwindError,
            >(cie_views(final(cies)@)),
            Err(e) => with_personalities(*info, addr, rels@, 0, cie_views(old(cies)@)) == Err::<
                Seq<CieView>,
                UnwindError,
            >(e),
        },
{
    let mut k: usize = 0;
    while k < rels.len()
        invariant
            k <= rels.len(),
            with_personalities(*info, addr, rels@, 0, cie_views(old(cies)@)) == with_personalities(
                *info,
                addr,
                rels@,
                k as int,
                cie_views(cies@),
            ),
        decreases rels.len() - k,
    {
        let r: MachRel = rels[k];
        if r.r_type() == info.reloc_gotpc {
            let at: u32 = bytes::low32(bytes::sum64(addr, r.r_address as u64));
            assert(at == bytes::word32(addr + r.r_address)) by {
                reveal(bytes::word32);
                reveal(bytes::word64);
            }
            match find_cie_holding(cies, at) {
                None => return Err(UnwindError::FrameStrayPersonality),
                Some(c) => {
                    if !r.is_extern() {
                        return Err(UnwindError::FramePersonalityRef);
                    }
                    let ghost before = cie_views(cies@);
                    let off: u32 = at - cies[c].input_addr;
                    cies[c].personality = Some(r.r_symbolnum());
                    cies[c].personality_offset = off;
                    assert(cie_views(cies@) =~= before.update(
                        c as int,
                        CieView {
                            personality: Some(r.symnum()),
                            personality_offset: off,
                            ..before[c as int]
                        },
                    ));
                },
            }
        }
        k += 1;
    }
    Ok(())
}

/// The first CIE from `i` on at the given address.
pub open spec fn cie_at(cies: Seq<CieView>, addr: u32, i: int) -> Option<int>
    decreases cies.len() - i,
{
    if i >= cies.len() {
        None
    } else if cies[i].input_addr == addr {
        Some(i)
    } else {
        cie_at(cies, addr, i + 1)
    }
}

/// Finds the first CIE at the given address.
fn find_cie_at(cies: &Vec<Cie>, addr: u32) -> (r: Option<usize>)
    ensures
        match r {
            Some(i) => cie_at(cie_views(cies@), addr, 0) == Some(i as int) && i < cies.len(),
            None => cie_at(cie_views(cies@), addr, 0) is None,
        },
{
    let mut i: usize = 0;
    while i < cies.len()
        invariant
            i <= cies.len(),
            cie_at(cie_views(cies@), addr, 0) == cie_at(cie_views(cies@), addr, i as int),
        decreases cies.len() - i,
    {
        assert(cie_views(cies@)[i as int] == cies[i as int]@);
        if cies[i].input_addr == addr {
            return Some(i);
        }
        i += 1;
    }
    None
}

/// True when some record covers the function at the given place.
pub open spec fn covered(records: Seq<UnwindRecord>, isec: usize, off: u32) -> bool {
    exists|i: int|
        0 <= i < records.len() && (#[trigger] records[i]).isec == isec && records[i].input_offset
            == off
}

/// True when one of the first `n` records covers the function at the given
/// place.
fn is_covered(records: &Vec<UnwindRecord>, n: usize, isec: usize, off: u32) -> (r: bool)
    requires
        n <= records.len(),
    ensures
        r == covered(records@.take(n as int), isec, off),
{
    let ghost first = records@.take(n as int);
    let mut i: usize = 0;
    while i < n
        invariant
            i <= n <= records.len(),
            first == records@.take(n as int),
            forall|j: int|
                0 <= j < i ==> !((#[trigger] first[j]).isec == isec && first[j].input_offset
                    == off),
        decreases n - i,
    {
        if records[i].isec == isec && records[i].input_offset == off {
            assert(first[i as int] == records[i as int]);
            return true;
        }
        i += 1;
    }
    false
}

/// The FDE that a raw record stands for, or `None` if a compact record
/// covers its function.
pub open spec fn fde_of(
    ext: Seq<(u64, u64)>,
    subsecs: Seq<usize>,
    cies: Seq<CieView>,
    compact: Seq<UnwindRecord>,
    at: u32,
    rec: Seq<u8>,
) -> Result<Option<FdeView>, UnwindError> {
    match cie_at(cies, bytes::word32(at + 4 - bytes::u32_at(rec, 4)), 0) {
        None => Err(UnwindError::FrameCie),
        Some(cie) => if rec.len() < 24 {
            Err(UnwindError::Truncated)
        } else {
            let func = bytes::word64(at + 8 + bytes::signed64(bytes::u64_at(rec, 8)));
            let code_len = bytes::word32(bytes::u64_at(rec, 16) as int);
            match super::unwind::locate(ext, subsecs, func) {
                None => Err(UnwindError::FrameFunction),
                Some((isec, off)) => if covered(compact, isec, off) {
                    Ok(None)
                } else {
                    match lsda_of(ext, subsecs, cies[cie].lsda_size, at, rec) {
                        Err(e) => Err(e),
                        Ok(lsda) => Ok(
                            Some(
                                FdeView {
                                    obj: UNSET,
                                    input_addr: at,
                                    data: rec,
                                    cie: cie as usize,
                                    isec,
                                    func_offset: off,
                                    code_len,
                                    lsda,
                                    output_offset: 0,
                                },
                            ),
                        ),
                    }
                },
            }
        },
    }
}

/// The LSDA that an FDE names, if its CIE declares one: a self-relative
/// cell behind the augmentation length.
pub open spec fn lsda_of(
    ext: Seq<(u64, u64)>,
    subsecs: Seq<usize>,
    lsda_size: u8,
    at: u32,
    rec: Seq<u8>,
) -> Result<Option<(usize, u32)>, UnwindError> {
    if lsda_size == 0 {
        Ok(None)
    } else {
        match super::uleb_at(rec, 24) {
            None => Err(UnwindError::Truncated),
            Some((_v, pos)) => if pos + 4 > rec.len() {
                Err(UnwindError::Truncated)
            } else {
                let addr = bytes::word64(at + pos + bytes::signed32(bytes::u32_at(rec, pos)));
                match super::unwind::locate(ext, subsecs, addr) {
                    Some(lsda) => Ok(Some(lsda)),
                    None => Err(UnwindError::FrameLsda),
                }
            },
        }
    }
}

/// Reads the LSDA that an FDE names.
fn read_lsda(isecs: &[InputSection], subsecs: &[usize], lsda_size: u8, at: u32, rec: &Vec<u8>) -> (r:
    Result<Option<(usize, u32)>, UnwindError>)
    requires
        super::subsecs_exist(isecs@, subsecs@),
        super::in_address_order(super::extents(isecs@, subsecs@)),
        rec.len() >= 24,
    ensures
        r == lsda_of(super::extents(isecs@, subsecs@), subsecs@, lsda_size, at, rec@),
        r matches Ok(Some(l)) ==> l.0 < isecs.len(),
{
    if lsda_size == 0 {
        return Ok(None);
    }
    let pos: usize = match try_uleb_at(rec.as_slice(), 24) {
        Some((_v, next)) => next,
        None => return Err(UnwindError::Truncated),
    };
    if rec.len() - pos < 4 {
        return Err(UnwindError::Truncated);
    }
    let cell: i64 = bytes::to_signed32(bytes::get32(rec.as_slice(), pos));
    let here: u64 = bytes::sum64(at as u64, pos as u64);
    let addr: u64 = bytes::offset_by(here, cell);
    assert(addr == bytes::word64(at + pos + cell)) by {
        reveal(bytes::word64);
    }
    match find_local(isecs, subsecs, addr) {
        Some(lsda) => Ok(Some(lsda)),
        None => Err(UnwindError::FrameLsda),
    }
}

/// Reads one FDE.
fn read_fde(
    isecs: &[InputSection],
    subsecs: &[usize],
    cies: &Vec<Cie>,
    unwind: &Vec<UnwindRecord>,
    ncompact: usize,
    at: u32,
    rec: &Vec<u8>,
) -> (r: Result<Option<Fde>, UnwindError>)
    requires
        super::subsecs_exist(isecs@, subsecs@),
        super::in_address_order(super::extents(isecs@, subsecs@)),
        ncompact <= unwind.len(),
        rec.len() >= 8,
    ensures
        match r {
            Ok(Some(f)) => fde_of(
                super::extents(isecs@, subsecs@),
                subsecs@,
                cie_views(cies@),
                unwind@.take(ncompact as int),
                at,
                rec@,
            ) == Ok::<Option<FdeView>, UnwindError>(Some(f@)) && f.isec < isecs.len(),
            Ok(None) => fde_of(
                super::extents(isecs@, subsecs@),
                subsecs@,
                cie_views(cies@),
                unwind@.take(ncompact as int),
                at,
                rec@,
            ) == Ok::<Option<FdeView>, UnwindError>(None),
            Err(e) => fde_of(
                super::extents(isecs@, subsecs@),
                subsecs@,
                cie_views(cies@),
                unwind@.take(ncompact as int),
                at,
                rec@,
            ) == Err::<Option<FdeView>, UnwindError>(e),
        },
{
    let cie_off: u32 = bytes::get32(rec.as_slice(), 4);
    let cie_addr: u32 = bytes::low32(bytes::distance(at as u64 + 4, cie_off as u64));
    assert(cie_addr == bytes::word32(at + 4 - cie_off)) by {
        reveal(bytes::word32);
        reveal(bytes::word64);
    }
    let cie: usize = match find_cie_at(cies, cie_addr) {
        Some(c) => c,
        None => return Err(UnwindError::FrameCie),
    };
    if rec.len() < 24 {
        return Err(UnwindError::Truncated);
    }
    let pc_begin: i64 = bytes::to_signed64(bytes::get64(rec.as_slice(), 8));
    let func: u64 = bytes::offset_by(at as u64 + 8, pc_begin);
    let code_len: u32 = bytes::low32(bytes::get64(rec.as_slice(), 16));
    let (isec, off) = match find_local(isecs, subsecs, func) {
        Some(p) => p,
        None => return Err(UnwindError::FrameFunction),
    };
    if is_covered(unwind, ncompact, isec, off) {
        return Ok(None);
    }
    assert(cie_views(cies@)[cie as int] == cies[cie as int]@);
    match read_lsda(isecs, subsecs, cies[cie].lsda_size, at, rec) {
        Err(e) => Err(e),
        Ok(lsda) => {
            let f = Fde {
                obj: UNSET,
                input_addr: at,
                data: bytes::to_vec(rec.as_slice()),
                cie,
                isec,
                func_offset: off,
                code_len,
                lsda,
                output_offset: 0,
            };
            Ok(Some(f))
        },
    }
}

/// The compact record that points at an FDE, so that the unwinder can find
/// it through __unwind_info.
pub open spec fn fde_record(f: FdeView, idx: int) -> UnwindRecord {
    UnwindRecord {
        isec: f.isec,
        input_offset: f.func_offset,
        code_len: f.code_len,
        encoding: 0,
        personality: None,
        lsda: None,
        fde: Some(idx as usize),
    }
}

/// The FDEs and the unwind records after the raw FDEs from `k` on are
/// read. Functions that already have a compact record don't need theirs.
pub open spec fn fdes_from(
    ext: Seq<(u64, u64)>,
    subsecs: Seq<usize>,
    cies: Seq<CieView>,
    compact: Seq<UnwindRecord>,
    raw: Seq<(u32, Seq<u8>)>,
    k: int,
    fdes: Seq<FdeView>,
    unwind: Seq<UnwindRecord>,
) -> Result<(Seq<FdeView>, Seq<UnwindRecord>), UnwindError>
    decreases raw.len() - k,
{
    if k < 0 || k >= raw.len() {
        Ok((fdes, unwind))
    } else {
        match fde_of(ext, subsecs, cies, compact, raw[k].0, raw[k].1) {
            Err(e) => Err(e),
            Ok(None) => fdes_from(ext, subsecs, cies, compact, raw, k + 1, fdes, unwind),
            Ok(Some(f)) => fdes_from(
                ext,
                subsecs,
                cies,
                compact,
                raw,
                k + 1,
                fdes.push(f),
                unwind.push(fde_record(f, fdes.len() as int)),
            ),
        }
    }
}

/// What an __eh_frame section holds: its CIEs, its FDEs, and the unwind
/// records, those in `compact` first.
pub open spec fn eh_frame(
    info: ArchInfo,
    hdr: SectionView,
    ext: Seq<(u64, u64)>,
    subsecs: Seq<usize>,
    nlists: Seq<NList>,
    data: Seq<u8>,
    compact: Seq<UnwindRecord>,
) -> Result<(Seq<CieView>, Seq<FdeView>, Seq<UnwindRecord>), UnwindError> {
    let rels = super::unwind::rels_at(data, hdr.reloff as int, hdr.nreloc as int);
    if hdr.offset + hdr.size > data.len() || (hdr.nreloc > 0 && hdr.reloff + 8 * hdr.nreloc
        > data.len()) {
        Err(UnwindError::Truncated)
    } else {
        match apply_pairs(
            info,
            nlists,
            rels,
            0,
            data.subrange(hdr.offset as int, hdr.offset + hdr.size),
        ) {
            Err(e) => Err(e),
            Ok(c) => match records_from(hdr.addr, c, 0, Seq::empty(), Seq::empty()) {
                Err(e) => Err(e),
                Ok((cies0, raw)) => match with_lsda_sizes(cies0, 0) {
                    Err(e) => Err(e),
                    Ok(cies1) => match with_personalities(info, hdr.addr, rels, 0, cies1) {
                        Err(e) => Err(e),
                        Ok(cies) => match fdes_from(
                            ext,
                            subsecs,
                            cies,
                            compact,
                            raw,
                            0,
                            Seq::empty(),
                            compact,
                        ) {
                            Err(e) => Err(e),
                            Ok((fdes, unwind)) => Ok((cies, fdes, unwind)),
                        },
                    },
                },
            },
        }
    }
}

/// Reads the raw FDEs.
fn read_fdes(
    isecs: &[InputSection],
    subsecs: &[usize],
    cies: &Vec<Cie>,
    raw: &Vec<(u32, Vec<u8>)>,
    unwind: &mut Vec<UnwindRecord>,
) -> (r: Result<Vec<Fde>, UnwindError>)
    requires
        super::subsecs_exist(isecs@, subsecs@),
        super::in_address_order(super::extents(isecs@, subsecs@)),
        forall|i: int| 0 <= i < raw.len() ==> 8 <= (#[trigger] raw[i]).1.len(),
    ensures
        match r {
            Ok(fdes) => fdes_from(
                super::extents(isecs@, subsecs@),
                subsecs@,
                cie_views(cies@),
                old(unwind)@,
                raw_views(raw@),
                0,
                Seq::empty(),
                old(unwind)@,
            ) == Ok::<(Seq<FdeView>, Seq<UnwindRecord>), UnwindError>(
                (fde_views(fdes@), final(unwind)@),
            ),
            Err(e) => fdes_from(
                super::extents(isecs@, subsecs@),
                subsecs@,
                cie_views(cies@),
                old(unwind)@,
                raw_views(raw@),
                0,
                Seq::empty(),
                old(unwind)@,
            ) == Err::<(Seq<FdeView>, Seq<UnwindRecord>), UnwindError>(e),
        },
{
    let ncompact: usize = unwind.len();
    let ghost compact = unwind@;
    let mut fdes: Vec<Fde> = Vec::new();
    let mut k: usize = 0;
    assert(fde_views(fdes@) =~= Seq::<FdeView>::empty());
    while k < raw.len()
        invariant
            k <= raw.len(),
            super::subsecs_exist(isecs@, subsecs@),
            super::in_address_order(super::extents(isecs@, subsecs@)),
            forall|i: int| 0 <= i < raw.len() ==> 8 <= (#[trigger] raw[i]).1.len(),
            compact == old(unwind)@,
            ncompact == compact.len(),
            ncompact <= unwind.len(),
            unwind@.take(ncompact as int) == compact,
            fdes_from(
                super::extents(isecs@, subsecs@),
                subsecs@,
                cie_views(cies@),
                compact,
                raw_views(raw@),
                0,
                Seq::empty(),
                compact,
            ) == fdes_from(
                super::extents(isecs@, subsecs@),
                subsecs@,
                cie_views(cies@),
                compact,
                raw_views(raw@),
                k as int,
                fde_views(fdes@),
                unwind@,
            ),
        decreases raw.len() - k,
    {
        let at: u32 = raw[k].0;
        assert(raw_views(raw@)[k as int] == (at, raw[k as int].1@));
        match read_fde(isecs, subsecs, cies, unwind, ncompact, at, &raw[k].1) {
            Err(e) => return Err(e),
            Ok(None) => {},
            Ok(Some(f)) => {
                let ghost before = fde_views(fdes@);
                let ghost fv = f@;
                unwind.push(
                    UnwindRecord {
                        isec: f.isec,
                        input_offset: f.func_offset,
                        code_len: f.code_len,
                        encoding: 0,
                        personality: None,
                        lsda: None,
                        fde: Some(fdes.len()),
                    },
                );
                fdes.push(f);
                assert(fde_views(fdes@) =~= before.push(fv));
                assert(unwind@.take(ncompact as int) =~= compact);
            },
        }
        k += 1;
    }
    Ok(fdes)
}

/// Parses a __TEXT,__eh_frame section. Unlike other sections it is not
/// copied through: the linker re-synthesizes it, keeping only FDEs for
/// functions that have no compact unwind record. `unwind` holds the compact
/// records and gets one more for each FDE that is kept.
pub fn parse_eh_frame<E: Arch>(
    hdr: &MachSection,
    isecs: &[InputSection],
    subsecs: &[usize],
    nlists: &[NList],
    data: &[u8],
    unwind: &mut Vec<UnwindRecord>,
) -> (r: Result<(Vec<Cie>, Vec<Fde>), UnwindError>)
    requires
        super::subsecs_exist(isecs@, subsecs@),
        super::in_address_order(super::extents(isecs@, subsecs@)),
    ensures
        match r {
            Ok((cies, fdes)) => eh_frame(
                E::info(),
                hdr@,
                super::extents(isecs@, subsecs@),
                subsecs@,
                nlists@,
                data@,
                old(unwind)@,
            ) == Ok::<(Seq<CieView>, Seq<FdeView>, Seq<UnwindRecord>), UnwindError>(
                (cie_views(cies@), fde_views(fdes@), final(unwind)@),
            ),
            Err(e) => eh_frame(
                E::info(),
                hdr@,
                super::extents(isecs@, subsecs@),
                subsecs@,
                nlists@,
                data@,
                old(unwind)@,
            ) == Err::<(Seq<CieView>, Seq<FdeView>, Seq<UnwindRecord>), UnwindError>(e),
        },
{
    let info: ArchInfo = E::get_info();
    let len: u64 = data.len() as u64;
    if hdr.size > len || hdr.offset as u64 > len - hdr.size {
        return Err(UnwindError::Truncated);
    }
    let rels: Vec<MachRel> = match read_rels(data, hdr.reloff, hdr.nreloc) {
        Some(v) => v,
        None => return Err(UnwindError::Truncated),
    };
    let lo: usize = hdr.offset as usize;
    let hi: usize = (hdr.offset as u64 + hdr.size) as usize;
    let mut contents: Vec<u8> = bytes::copy_range(data, lo, hi);
    match do_pairs(&info, nlists, rels.as_slice(), &mut contents) {
        Ok(()) => {},
        Err(e) => return Err(e),
    }
    let (mut cies, raw) = match split_records(hdr.addr, &contents) {
        Ok(pair) => pair,
        Err(e) => return Err(e),
    };
    match read_lsda_sizes(&mut cies) {
        Ok(()) => {},
        Err(e) => return Err(e),
    }
    match read_personalities(&info, hdr.addr, rels.as_slice(), &mut cies) {
        Ok(()) => {},
        Err(e) => return Err(e),
    }
    match read_fdes(isecs, subsecs, &cies, &raw, unwind) {
        Ok(fdes) => Ok((cies, fdes)),
        Err(e) => Err(e),
    }
}

} // verus!
