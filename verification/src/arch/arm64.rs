//! The ARM64 (AArch64) target.
use crate::arch::{
    find_section, Arch, ApplyError, ArchInfo, RelocClass, RelocError, ResolvedReloc,
};
use crate::input_sections::{Reloc, RelocTarget};
use crate::macho::consts::{
    ARM64_RELOC_ADDEND, ARM64_RELOC_BRANCH26, ARM64_RELOC_GOT_LOAD_PAGE21,
    ARM64_RELOC_GOT_LOAD_PAGEOFF12, ARM64_RELOC_PAGE21, ARM64_RELOC_PAGEOFF12,
    ARM64_RELOC_POINTER_TO_GOT, ARM64_RELOC_SUBTRACTOR, ARM64_RELOC_TLVP_LOAD_PAGE21,
    ARM64_RELOC_TLVP_LOAD_PAGEOFF12, ARM64_RELOC_UNSIGNED, CPU_SUBTYPE_ARM64_ALL, CPU_TYPE_ARM64,
};
use crate::macho::{MachRel, MachSection, SectionView};
use crate::util;
use crate::util::bytes;
use vstd::arithmetic::power2;
use vstd::prelude::*;

verus! {

/// The ARM64 target.
#[derive(Clone, Copy, Debug, Default)]
pub struct Arm64;

/// The start of the 4 KiB page that holds `val`.
pub open spec fn page_of(val: u64) -> u64 {
    (val - val % 4096) as u64
}

/// The bit field of `val` from bit `hi` down to bit `lo`.
pub open spec fn field(val: u64, hi: nat, lo: nat) -> u64 {
    ((val as nat / power2::pow2(lo)) % power2::pow2((hi - lo + 1) as nat)) as u64
}

/// The start of the 4 KiB page that holds `val`.
fn page(val: u64) -> (r: u64)
    ensures
        r == page_of(val),
{
    val - val % 4096
}

/// A bit field, as a 32-bit value.
fn bits32(val: u64, hi: u32, lo: u32) -> (r: u32)
    requires
        lo <= hi < 64,
        hi - lo < 31,
    ensures
        r == field(val, hi as nat, lo as nat) as u32,
{
    let v: u64 = util::bits(val, hi, lo);
    v as u32
}

/// The ADRP immediate for reaching `hi`'s page from `lo`'s page.
pub open spec fn adrp_imm(hi: u64, lo: u64) -> u32 {
    let val = bytes::word64(page_of(hi) - page_of(lo));
    (((field(val, 13, 12) as u32) << 29u32) | ((field(val, 32, 14) as u32) << 5u32)) as u32
}

/// Computes the ADRP immediate for reaching `hi`'s page from `lo`'s page.
fn page_offset(hi: u64, lo: u64) -> (r: u32)
    ensures
        r == adrp_imm(hi, lo),
{
    let val: u64 = bytes::distance(page(hi), page(lo));
    (bits32(val, 13, 12) << 29u32) | (bits32(val, 32, 14) << 5u32)
}

/// The scale of the immediate of an ADD, LDR or STR instruction: loads and
/// stores count in units of the data size, which the top two bits give;
/// vector accesses of 16 bytes share the encoding of byte accesses.
pub open spec fn imm_scale(insn: u32) -> nat {
    if insn & 0x3b00_0000 == 0x3900_0000 {
        let scale = insn / 0x4000_0000;
        if scale == 0 && insn & 0x0480_0000 == 0x0480_0000 {
            4
        } else {
            scale as nat
        }
    } else {
        0
    }
}

/// An ADD, LDR or STR instruction with the page offset of `val` as its
/// immediate.
pub open spec fn with_imm(insn: u32, val: u64) -> u32 {
    insn | ((field(val, 11, imm_scale(insn)) as u32) << 10u32)
}

/// Puts the page offset of `val` into an ADD, LDR or STR instruction.
fn set_imm(insn: u32, val: u64) -> (r: u32)
    ensures
        r == with_imm(insn, val),
{
    let mut scale: u32 = 0;
    if insn & 0x3b00_0000 == 0x3900_0000 {
        scale = insn / 0x4000_0000;
        if scale == 0 && insn & 0x0480_0000 == 0x0480_0000 {
            scale = 4;
        }
    }
    insn | (bits32(val, 11, scale) << 10u32)
}

/// The addend of the record at `i`, and the index of the record that it
/// belongs to. UNSIGNED relocations have their addend in the relocated
/// field; a separate record precedes the others that have one.
pub open spec fn addend_at(
    hdr: SectionView,
    data: Seq<u8>,
    rels: Seq<MachRel>,
    i: int,
) -> Result<(int, int), RelocError> {
    let r = rels[i];
    if r.kind() == ARM64_RELOC_UNSIGNED {
        let off = hdr.offset + r.r_address;
        if r.p2size() == 2 {
            if off + 4 <= data.len() {
                Ok((bytes::signed32(bytes::u32_at(data, off)), i))
            } else {
                Err(RelocError::Truncated)
            }
        } else if r.p2size() == 3 {
            if off + 8 <= data.len() {
                Ok((bytes::signed64(bytes::u64_at(data, off)), i))
            } else {
                Err(RelocError::Truncated)
            }
        } else {
            Err(RelocError::BadSize)
        }
    } else if r.kind() == ARM64_RELOC_ADDEND {
        if i + 1 < rels.len() {
            Ok((util::sign_extended(r.symnum() as int, 23), i + 1))
        } else {
            Err(RelocError::Truncated)
        }
    } else {
        Ok((0, i))
    }
}

/// What record `j` refers to, with its addend `addend`: a symbol, or the
/// section that holds the address it names.
pub open spec fn target_of(
    sections: Seq<SectionView>,
    hdr: SectionView,
    r: MachRel,
    addend: int,
    bias: int,
) -> Result<(RelocTarget, int), RelocError> {
    if r.external() {
        Ok((RelocTarget::Sym(r.symnum()), addend))
    } else {
        let addr = if r.pcrel() {
            bytes::word64(hdr.addr + r.r_address + bias + addend)
        } else {
            bytes::word64(addend)
        };
        match super::section_at(sections, addr as int, 0) {
            Some(idx) => Ok(
                (
                    RelocTarget::Section(idx as u32),
                    bytes::signed64((addr - sections[idx].addr) as u64),
                ),
            ),
            None => Err(RelocError::BadTarget(r.r_address)),
        }
    }
}

/// Finds what a record refers to. `bias` is the distance from the field to
/// the address that a pc-relative target counts from.
pub fn find_target(
    sections: &[MachSection],
    hdr: &MachSection,
    r: &MachRel,
    addend: i64,
    bias: u64,
) -> (res: Result<(RelocTarget, i64), RelocError>)
    requires
        sections.len() < 0x8000_0000,
        bias <= 4,
    ensures
        match res {
            Ok((t, a)) => target_of(
                super::section_views(sections@),
                hdr@,
                *r,
                addend as int,
                bias as int,
            ) == Ok::<(RelocTarget, int), RelocError>((t, a as int)) && t.index() < 0x8000_0000,
            Err(e) => target_of(
                super::section_views(sections@),
                hdr@,
                *r,
                addend as int,
                bias as int,
            ) == Err::<(RelocTarget, int), RelocError>(e),
        },
{
    if r.is_extern() {
        return Ok((RelocTarget::Sym(r.r_symbolnum()), addend));
    }
    proof {
        reveal(bytes::word64);
    }
    let addr: u64 = if r.is_pcrel() {
        let here: u64 = bytes::sum64(hdr.addr, r.r_address as u64 + bias);
        bytes::offset_by(here, addend)
    } else {
        bytes::from_signed64(addend)
    };
    match find_section(sections, addr) {
        Some(idx) => {
            let a: i64 = bytes::to_signed64(addr - sections[idx].addr);
            assert(super::section_views(sections@)[idx as int] == sections[idx as int]@);
            Ok((RelocTarget::Section(idx as u32), a))
        },
        None => Err(RelocError::BadTarget(r.r_address)),
    }
}

/// The size in bytes of a record's field.
pub fn field_size(r: &MachRel) -> (n: u8)
    ensures
        n == size_of_field(*r),
{
    let p: u32 = r.r_length();
    if p == 0 {
        1
    } else if p == 1 {
        2
    } else if p == 2 {
        4
    } else {
        8
    }
}

/// The size in bytes of a record's field.
pub open spec fn size_of_field(r: MachRel) -> u8 {
    if r.p2size() == 0 {
        1
    } else if r.p2size() == 1 {
        2
    } else if r.p2size() == 2 {
        4
    } else {
        8
    }
}

/// The relocation that a record stands for.
pub open spec fn reloc_of(
    r: MachRel,
    is_subtracted: bool,
    target: RelocTarget,
    addend: int,
) -> Reloc {
    Reloc {
        offset: r.r_address,
        r_type: r.kind(),
        size: size_of_field(r),
        is_pcrel: r.pcrel(),
        is_subtracted,
        target: target.packed(),
        addend: addend as i64,
        thunk_off: u32::MAX,
    }
}

/// The relocations of the records from `i` on, after those in `acc`.
pub open spec fn relocs_from(
    sections: Seq<SectionView>,
    hdr: SectionView,
    data: Seq<u8>,
    rels: Seq<MachRel>,
    i: int,
    acc: Seq<Reloc>,
) -> Result<Seq<Reloc>, RelocError>
    decreases rels.len() - i,
{
    if i < 0 || i >= rels.len() {
        Ok(acc)
    } else {
        match addend_at(hdr, data, rels, i) {
            Err(e) => Err(e),
            Ok((addend, j)) => match target_of(sections, hdr, rels[j], addend, 0) {
                Err(e) => Err(e),
                Ok((target, a)) => {
                    let is_subtracted = j > 0 && rels[j - 1].kind() == ARM64_RELOC_SUBTRACTOR;
                    if j < i {
                        Err(RelocError::Truncated)
                    } else {
                        relocs_from(
                            sections,
                            hdr,
                            data,
                            rels,
                            j + 1,
                            acc.push(reloc_of(rels[j], is_subtracted, target, a)),
                        )
                    }
                },
            },
        }
    }
}

/// Reads the addend of the record at `i`.
fn read_addend(hdr: &MachSection, file_data: &[u8], rels: &[MachRel], i: usize) -> (res: Result<
    (i64, usize),
    RelocError,
>)
    requires
        i < rels.len(),
    ensures
        match res {
            Ok((a, j)) => addend_at(hdr@, file_data@, rels@, i as int) == Ok::<
                (int, int),
                RelocError,
            >((a as int, j as int)) && i <= j < rels.len(),
            Err(e) => addend_at(hdr@, file_data@, rels@, i as int) == Err::<
                (int, int),
                RelocError,
            >(e),
        },
{
    let r: MachRel = rels[i];
    if r.r_type() == ARM64_RELOC_UNSIGNED {
        let off: u64 = hdr.offset as u64 + r.r_address as u64;
        let p2size: u32 = r.r_length();
        if p2size == 2 {
            if (file_data.len() as u64) < off + 4 {
                return Err(RelocError::Truncated);
            }
            Ok((bytes::to_signed32(bytes::get32(file_data, off as usize)), i))
        } else if p2size == 3 {
            if (file_data.len() as u64) < off + 8 {
                return Err(RelocError::Truncated);
            }
            Ok((bytes::to_signed64(bytes::get64(file_data, off as usize)), i))
        } else {
            Err(RelocError::BadSize)
        }
    } else if r.r_type() == ARM64_RELOC_ADDEND {
        if i + 1 >= rels.len() {
            return Err(RelocError::Truncated);
        }
        Ok((util::sign_extend(r.r_symbolnum() as u64, 23), i + 1))
    } else {
        Ok((0, i))
    }
}

/// The word that a relocation at address `p` leaves in place of `insn`.
pub open spec fn relocated_insn(x: ResolvedReloc, insn: u32, p: u64) -> Result<u32, ApplyError> {
    let r = x.rel;
    let sa = bytes::word64(x.s + r.addend);
    let tlv = bytes::word64(x.tlv_ptr + r.addend);
    let got = bytes::word64(x.got + r.addend);
    if r.r_type == ARM64_RELOC_BRANCH26 {
        let val = bytes::word64(sa - p);
        if -0x800_0000 <= bytes::signed64(val) < 0x800_0000 {
            Ok(insn | (field(val, 27, 2) as u32))
        } else {
            Err(ApplyError::BranchOutOfRange)
        }
    } else if r.r_type == ARM64_RELOC_PAGE21 {
        Ok(insn | adrp_imm(sa, p))
    } else if r.r_type == ARM64_RELOC_PAGEOFF12 {
        Ok(with_imm(insn, sa))
    } else if r.r_type != ARM64_RELOC_TLVP_LOAD_PAGE21 && r.r_type
        != ARM64_RELOC_TLVP_LOAD_PAGEOFF12 && r.r_type != ARM64_RELOC_GOT_LOAD_PAGE21 && r.r_type
        != ARM64_RELOC_GOT_LOAD_PAGEOFF12 && r.r_type != ARM64_RELOC_POINTER_TO_GOT {
        Err(ApplyError::UnsupportedType(r.r_type))
    } else if !x.is_sym {
        Err(ApplyError::NeedsSymbol)
    } else if r.r_type == ARM64_RELOC_TLVP_LOAD_PAGE21 {
        Ok(insn | adrp_imm(tlv, p))
    } else if r.r_type == ARM64_RELOC_TLVP_LOAD_PAGEOFF12 {
        Ok(with_imm(insn, tlv))
    } else if r.r_type == ARM64_RELOC_GOT_LOAD_PAGE21 {
        Ok(insn | adrp_imm(got, p))
    } else if r.r_type == ARM64_RELOC_GOT_LOAD_PAGEOFF12 {
        Ok(with_imm(insn, got))
    } else {
        Ok(bytes::word32(bytes::word64(got - p) as int))
    }
}

/// Computes the word that a relocation at address `p` leaves in place of
/// `insn`.
fn relocate_insn(x: &ResolvedReloc, insn: u32, p: u64) -> (res: Result<u32, ApplyError>)
    ensures
        res == relocated_insn(*x, insn, p),
{
    let r: Reloc = x.rel;
    let sa: u64 = bytes::offset_by(x.s, r.addend);
    let tlv: u64 = bytes::offset_by(x.tlv_ptr, r.addend);
    let got: u64 = bytes::offset_by(x.got, r.addend);
    if r.r_type == ARM64_RELOC_BRANCH26 {
        let val: u64 = bytes::distance(sa, p);
        let dist: i64 = bytes::to_signed64(val);
        if -0x800_0000 <= dist && dist < 0x800_0000 {
            Ok(insn | bits32(val, 27, 2))
        } else {
            Err(ApplyError::BranchOutOfRange)
        }
    } else if r.r_type == ARM64_RELOC_PAGE21 {
        Ok(insn | page_offset(sa, p))
    } else if r.r_type == ARM64_RELOC_PAGEOFF12 {
        Ok(set_imm(insn, sa))
    } else if r.r_type != ARM64_RELOC_TLVP_LOAD_PAGE21 && r.r_type
        != ARM64_RELOC_TLVP_LOAD_PAGEOFF12 && r.r_type != ARM64_RELOC_GOT_LOAD_PAGE21 && r.r_type
        != ARM64_RELOC_GOT_LOAD_PAGEOFF12 && r.r_type != ARM64_RELOC_POINTER_TO_GOT {
        Err(ApplyError::UnsupportedType(r.r_type))
    } else if !x.is_sym {
        Err(ApplyError::NeedsSymbol)
    } else if r.r_type == ARM64_RELOC_TLVP_LOAD_PAGE21 {
        Ok(insn | page_offset(tlv, p))
    } else if r.r_type == ARM64_RELOC_TLVP_LOAD_PAGEOFF12 {
        Ok(set_imm(insn, tlv))
    } else if r.r_type == ARM64_RELOC_GOT_LOAD_PAGE21 {
        Ok(insn | page_offset(got, p))
    } else if r.r_type == ARM64_RELOC_GOT_LOAD_PAGEOFF12 {
        Ok(set_imm(insn, got))
    } else {
        Ok(bytes::low32(bytes::distance(got, p)))
    }
}

/// The bytes after the relocation at `i` is applied, and the index of the
/// next one.
#[verifier::opaque]
pub open spec fn apply_one(
    rels: Seq<ResolvedReloc>,
    i: int,
    base: u64,
    tls_begin: u64,
    b: Seq<u8>,
) -> Result<(Seq<u8>, int), ApplyError> {
    let x = rels[i];
    let r = x.rel;
    let off = r.offset as int;
    let p = bytes::word64(base + r.offset);
    let sa = bytes::word64(x.s + r.addend);
    if r.r_type == ARM64_RELOC_UNSIGNED {
        if x.is_imported {
            Ok((b, i + 1))
        } else if off + 8 > b.len() {
            Err(ApplyError::OutOfBounds)
        } else if x.is_tls {
            Ok((bytes::patched(b, off, bytes::le64(bytes::word64(sa - tls_begin))), i + 1))
        } else {
            Ok((bytes::patched(b, off, bytes::le64(sa)), i + 1))
        }
    } else if r.r_type == ARM64_RELOC_SUBTRACTOR {
        if i + 1 >= rels.len() || (r.size != 4 && r.size != 8) {
            Err(ApplyError::BadSubtractor)
        } else if off + r.size > b.len() {
            Err(ApplyError::OutOfBounds)
        } else {
            let y = rels[i + 1];
            let val = bytes::word64(bytes::word64(y.s + y.rel.addend) - x.s);
            if r.size == 4 {
                Ok((bytes::patched(b, off, bytes::le32(bytes::word32(val as int))), i + 2))
            } else {
                Ok((bytes::patched(b, off, bytes::le64(val)), i + 2))
            }
        }
    } else if off + 4 > b.len() {
        Err(ApplyError::OutOfBounds)
    } else {
        match relocated_insn(x, bytes::u32_at(b, off), p) {
            Ok(word) => Ok((bytes::patched(b, off, bytes::le32(word)), i + 1)),
            Err(e) => Err(e),
        }
    }
}

/// The bytes after the relocations from `i` on are applied.
pub open spec fn apply_from(
    rels: Seq<ResolvedReloc>,
    i: int,
    base: u64,
    tls_begin: u64,
    b: Seq<u8>,
) -> Result<Seq<u8>, ApplyError>
    decreases rels.len() - i,
{
    if i < 0 || i >= rels.len() {
        Ok(b)
    } else {
        match apply_one(rels, i, base, tls_begin, b) {
            Ok((next, j)) => if j <= i || j > rels.len() {
                Ok(next)
            } else {
                apply_from(rels, j, base, tls_begin, next)
            },
            Err(e) => Err(e),
        }
    }
}

/// Applies the relocation at `i`, returning the index of the next one.
fn apply_reloc(
    rels: &[ResolvedReloc],
    i: usize,
    base: u64,
    tls_begin: u64,
    buf: &mut Vec<u8>,
) -> (res: Result<usize, ApplyError>)
    requires
        i < rels.len(),
    ensures
        match res {
            Ok(j) => apply_one(rels@, i as int, base, tls_begin, old(buf)@) == Ok::<
                (Seq<u8>, int),
                ApplyError,
            >((final(buf)@, j as int)) && i < j <= rels.len() && final(buf).len() == old(buf).len(),
            Err(e) => apply_one(rels@, i as int, base, tls_begin, old(buf)@) == Err::<
                (Seq<u8>, int),
                ApplyError,
            >(e),
        },
{
    proof {
        reveal(apply_one);
    }
    let x: ResolvedReloc = rels[i];
    let r: Reloc = x.rel;
    let off: usize = r.offset as usize;
    let p: u64 = bytes::sum64(base, r.offset as u64);
    let sa: u64 = bytes::offset_by(x.s, r.addend);
    if r.r_type == ARM64_RELOC_UNSIGNED {
        if x.is_imported {
            // The slot is filled by dyld.
            return Ok(i + 1);
        }
        if buf.len() < 8 || off > buf.len() - 8 {
            return Err(ApplyError::OutOfBounds);
        }
        if x.is_tls {
            // __thread_vars holds thread-pointer-relative offsets into the
            // TLS initialization image.
            bytes::put64(buf, off, bytes::distance(sa, tls_begin));
        } else {
            bytes::put64(buf, off, sa);
        }
        return Ok(i + 1);
    }
    if r.r_type == ARM64_RELOC_SUBTRACTOR {
        // A SUBTRACTOR relocation is followed by an UNSIGNED relocation.
        // They work as a pair to materialize the distance between two
        // locations.
        if i + 1 >= rels.len() || (r.size != 4 && r.size != 8) {
            return Err(ApplyError::BadSubtractor);
        }
        if buf.len() < r.size as usize || off > buf.len() - r.size as usize {
            return Err(ApplyError::OutOfBounds);
        }
        let y: ResolvedReloc = rels[i + 1];
        let val: u64 = bytes::distance(bytes::offset_by(y.s, y.rel.addend), x.s);
        if r.size == 4 {
            bytes::put32(buf, off, bytes::low32(val));
        } else {
            bytes::put64(buf, off, val);
        }
        return Ok(i + 2);
    }
    if buf.len() < 4 || off > buf.len() - 4 {
        return Err(ApplyError::OutOfBounds);
    }
    let insn: u32 = bytes::get32(buf.as_slice(), off);
    match relocate_insn(&x, insn, p) {
        Ok(word) => {
            bytes::put32(buf, off, word);
            Ok(i + 1)
        },
        Err(e) => Err(e),
    }
}

impl Arch for Arm64 {
    open spec fn info() -> ArchInfo {
        ArchInfo {
            cputype: CPU_TYPE_ARM64,
            cpusubtype: CPU_SUBTYPE_ARM64_ALL,
            page_size: 16384,
            stub_size: 12,
            unwind_mode_dwarf: 0x0300_0000,
            objc_stub_size: 32,
            branch_range: 0x1000_0000,
            thunk_size: 12,
            reloc_unsigned: ARM64_RELOC_UNSIGNED,
            reloc_subtractor: ARM64_RELOC_SUBTRACTOR,
            reloc_gotpc: ARM64_RELOC_POINTER_TO_GOT,
            reloc_addend: ARM64_RELOC_ADDEND,
        }
    }

    fn get_info() -> (r: ArchInfo) {
        ArchInfo {
            cputype: CPU_TYPE_ARM64,
            cpusubtype: CPU_SUBTYPE_ARM64_ALL,
            page_size: 16384,
            stub_size: 12,
            unwind_mode_dwarf: 0x0300_0000,
            objc_stub_size: 32,
            branch_range: 0x1000_0000,
            thunk_size: 12,
            reloc_unsigned: ARM64_RELOC_UNSIGNED,
            reloc_subtractor: ARM64_RELOC_SUBTRACTOR,
            reloc_gotpc: ARM64_RELOC_POINTER_TO_GOT,
            reloc_addend: ARM64_RELOC_ADDEND,
        }
    }

    proof fn info_ok() {
    }

    proof fn sizes_ok(addr: u64, slot: u64, msgsend: u64) {
        bytes::lemma_le32s_len(
            seq![
                0x9000_0010u32 | adrp_imm(slot, addr),
                0xf940_0210u32 | ((field(slot, 11, 3) as u32) << 10u32),
                0xd61f_0200u32,
            ],
        );
        bytes::lemma_le32s_len(
            seq![
                0x9000_0001u32 | adrp_imm(slot, addr),
                0xf940_0021u32 | ((field(slot, 11, 3) as u32) << 10u32),
                0x9000_0010u32 | adrp_imm(msgsend, bytes::word64(addr + 8)),
                0xf940_0210u32 | ((field(msgsend, 11, 3) as u32) << 10u32),
                0xd61f_0200u32,
                0xd420_0020u32,
                0xd420_0020u32,
                0xd420_0020u32,
            ],
        );
        bytes::lemma_le32s_len(
            seq![
                0x9000_0010u32 | adrp_imm(slot, addr),
                0x9100_0210u32 | ((field(slot, 11, 0) as u32) << 10u32),
                0xd61f_0200u32,
            ],
        );
    }

    open spec fn addend_record(r_type: u8) -> bool {
        r_type == ARM64_RELOC_BRANCH26 || r_type == ARM64_RELOC_PAGE21 || r_type
            == ARM64_RELOC_PAGEOFF12
    }

    fn relocatable_needs_addend(r_type: u8) -> (r: bool) {
        r_type == ARM64_RELOC_BRANCH26 || r_type == ARM64_RELOC_PAGE21 || r_type
            == ARM64_RELOC_PAGEOFF12
    }

    open spec fn class_of(r_type: u8) -> RelocClass {
        if r_type == ARM64_RELOC_BRANCH26 {
            RelocClass::Branch
        } else if r_type == ARM64_RELOC_GOT_LOAD_PAGE21 || r_type == ARM64_RELOC_GOT_LOAD_PAGEOFF12
            || r_type == ARM64_RELOC_POINTER_TO_GOT {
            RelocClass::Got
        } else if r_type == ARM64_RELOC_TLVP_LOAD_PAGE21 || r_type
            == ARM64_RELOC_TLVP_LOAD_PAGEOFF12 {
            RelocClass::Tlv
        } else {
            RelocClass::Plain
        }
    }

    fn classify_reloc(r_type: u8) -> (r: RelocClass) {
        if r_type == ARM64_RELOC_BRANCH26 {
            RelocClass::Branch
        } else if r_type == ARM64_RELOC_GOT_LOAD_PAGE21 || r_type == ARM64_RELOC_GOT_LOAD_PAGEOFF12
            || r_type == ARM64_RELOC_POINTER_TO_GOT {
            RelocClass::Got
        } else if r_type == ARM64_RELOC_TLVP_LOAD_PAGE21 || r_type
            == ARM64_RELOC_TLVP_LOAD_PAGEOFF12 {
            RelocClass::Tlv
        } else {
            RelocClass::Plain
        }
    }

    open spec fn relaxable(data: Seq<u8>, offset: u32, r_type: u8) -> bool {
        false
    }

    fn can_relax_got_load(data: &[u8], offset: u32, r_type: u8) -> (r: bool) {
        false
    }

    open spec fn relocs_of(
        sections: Seq<SectionView>,
        hdr: SectionView,
        data: Seq<u8>,
        rels: Seq<MachRel>,
    ) -> Result<Seq<Reloc>, RelocError> {
        relocs_from(sections, hdr, data, rels, 0, Seq::empty())
    }

    fn read_relocs(
        sections: &[MachSection],
        hdr: &MachSection,
        file_data: &[u8],
        rels: &[MachRel],
    ) -> (r: Result<Vec<Reloc>, RelocError>) {
        let mut out: Vec<Reloc> = Vec::new();
        let mut i: usize = 0;
        let ghost views = super::section_views(sections@);
        while i < rels.len()
            invariant
                i <= rels.len(),
                sections.len() < 0x8000_0000,
                views == super::section_views(sections@),
                relocs_from(views, hdr@, file_data@, rels@, 0, Seq::empty()) == relocs_from(
                    views,
                    hdr@,
                    file_data@,
                    rels@,
                    i as int,
                    out@,
                ),
            decreases rels.len() - i,
        {
            let (addend, j) = match read_addend(hdr, file_data, rels, i) {
                Ok(pair) => pair,
                Err(e) => return Err(e),
            };
            let r: MachRel = rels[j];
            let is_subtracted: bool = j > 0 && rels[j - 1].r_type() == ARM64_RELOC_SUBTRACTOR;
            let (target, a) = match find_target(sections, hdr, &r, addend, 0) {
                Ok(pair) => pair,
                Err(e) => return Err(e),
            };
            out.push(
                Reloc {
                    offset: r.r_address,
                    r_type: r.r_type(),
                    size: field_size(&r),
                    is_pcrel: r.is_pcrel(),
                    is_subtracted,
                    target: target.pack(),
                    addend: a,
                    thunk_off: u32::MAX,
                },
            );
            i = j + 1;
        }
        Ok(out)
    }

    open spec fn applied(
        rels: Seq<ResolvedReloc>,
        base: u64,
        tls_begin: u64,
        bytes: Seq<u8>,
    ) -> Result<Seq<u8>, ApplyError> {
        apply_from(rels, 0, base, tls_begin, bytes)
    }

    fn apply_relocs(
        rels: &[ResolvedReloc],
        base: u64,
        tls_begin: u64,
        buf: &mut Vec<u8>,
    ) -> (r: Result<(), ApplyError>) {
        let ghost before = buf@;
        let mut i: usize = 0;
        while i < rels.len()
            invariant
                i <= rels.len(),
                before == old(buf)@,
                buf.len() == before.len(),
                apply_from(rels@, 0, base, tls_begin, before) == apply_from(
                    rels@,
                    i as int,
                    base,
                    tls_begin,
                    buf@,
                ),
            decreases rels.len() - i,
        {
            match apply_reloc(rels, i, base, tls_begin, buf) {
                Ok(j) => {
                    i = j;
                },
                Err(e) => return Err(e),
            }
        }
        Ok(())
    }

    open spec fn stub(addr: u64, slot: u64) -> Seq<u8> {
        bytes::le32s(
            seq![
                0x9000_0010u32 | adrp_imm(slot, addr),
                0xf940_0210u32 | ((field(slot, 11, 3) as u32) << 10u32),
                0xd61f_0200u32,
            ],
        )
    }

    /// adrp x16, $ptr@PAGE; ldr x16, [x16, $ptr@PAGEOFF]; br x16
    fn push_stub(buf: &mut Vec<u8>, addr: u64, slot: u64) {
        let words: [u32; 3] = [
            0x9000_0010u32 | page_offset(slot, addr),
            0xf940_0210u32 | (bits32(slot, 11, 3) << 10u32),
            0xd61f_0200u32,
        ];
        bytes::push32s(buf, words.as_slice());
        assert(words@ =~= seq![
            0x9000_0010u32 | adrp_imm(slot, addr),
            0xf940_0210u32 | ((field(slot, 11, 3) as u32) << 10u32),
            0xd61f_0200u32,
        ]);
    }

    open spec fn objc_stub(addr: u64, selref: u64, msgsend: u64) -> Seq<u8> {
        bytes::le32s(
            seq![
                0x9000_0001u32 | adrp_imm(selref, addr),
                0xf940_0021u32 | ((field(selref, 11, 3) as u32) << 10u32),
                0x9000_0010u32 | adrp_imm(msgsend, bytes::word64(addr + 8)),
                0xf940_0210u32 | ((field(msgsend, 11, 3) as u32) << 10u32),
                0xd61f_0200u32,
                0xd420_0020u32,
                0xd420_0020u32,
                0xd420_0020u32,
            ],
        )
    }

    /// adrp x1, sel@PAGE; ldr x1, [x1, sel@PAGEOFF]; adrp x16,
    /// _objc_msgSend@GOTPAGE; ldr x16, [x16, ...]; br x16; brk x3
    fn push_objc_stub(buf: &mut Vec<u8>, addr: u64, selref: u64, msgsend: u64) {
        let words: [u32; 8] = [
            0x9000_0001u32 | page_offset(selref, addr),
            0xf940_0021u32 | (bits32(selref, 11, 3) << 10u32),
            0x9000_0010u32 | page_offset(msgsend, bytes::sum64(addr, 8)),
            0xf940_0210u32 | (bits32(msgsend, 11, 3) << 10u32),
            0xd61f_0200u32,
            0xd420_0020u32,
            0xd420_0020u32,
            0xd420_0020u32,
        ];
        bytes::push32s(buf, words.as_slice());
        assert(words@ =~= seq![
            0x9000_0001u32 | adrp_imm(selref, addr),
            0xf940_0021u32 | ((field(selref, 11, 3) as u32) << 10u32),
            0x9000_0010u32 | adrp_imm(msgsend, bytes::word64(addr + 8)),
            0xf940_0210u32 | ((field(msgsend, 11, 3) as u32) << 10u32),
            0xd61f_0200u32,
            0xd420_0020u32,
            0xd420_0020u32,
            0xd420_0020u32,
        ]);
    }

    open spec fn thunk(addr: u64, target: u64) -> Seq<u8> {
        bytes::le32s(
            seq![
                0x9000_0010u32 | adrp_imm(target, addr),
                0x9100_0210u32 | ((field(target, 11, 0) as u32) << 10u32),
                0xd61f_0200u32,
            ],
        )
    }

    /// adrp x16, $target@PAGE; add x16, x16, $target@PAGEOFF; br x16
    fn push_thunk(buf: &mut Vec<u8>, addr: u64, target: u64) {
        let words: [u32; 3] = [
            0x9000_0010u32 | page_offset(target, addr),
            0x9100_0210u32 | (bits32(target, 11, 0) << 10u32),
            0xd61f_0200u32,
        ];
        bytes::push32s(buf, words.as_slice());
        assert(words@ =~= seq![
            0x9000_0010u32 | adrp_imm(target, addr),
            0x9100_0210u32 | ((field(target, 11, 0) as u32) << 10u32),
            0xd61f_0200u32,
        ]);
    }
}

} // verus!
