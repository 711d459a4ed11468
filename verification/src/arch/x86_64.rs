//! The x86-64 target.
use crate::arch::arm64::{field_size, find_target};
use crate::arch::{Arch, ApplyError, ArchInfo, RelocClass, RelocError, ResolvedReloc};
use crate::input_sections::Reloc;
use crate::macho::consts::{
    CPU_SUBTYPE_X86_64_ALL, CPU_TYPE_X86_64, X86_64_RELOC_BRANCH, X86_64_RELOC_GOT,
    X86_64_RELOC_GOT_LOAD, X86_64_RELOC_SIGNED, X86_64_RELOC_SIGNED_1, X86_64_RELOC_SIGNED_2,
    X86_64_RELOC_SIGNED_4, X86_64_RELOC_SUBTRACTOR, X86_64_RELOC_TLV, X86_64_RELOC_UNSIGNED,
};
use crate::macho::{MachRel, MachSection, SectionView};
use crate::util::bytes;
use vstd::prelude::*;

verus! {

/// The x86-64 target.
#[derive(Clone, Copy, Debug, Default)]
pub struct X86_64;

/// How many instruction bytes follow the field of a SIGNED_K relocation.
pub open spec fn bias_of(r_type: u8) -> int {
    if r_type == X86_64_RELOC_SIGNED_1 {
        1
    } else if r_type == X86_64_RELOC_SIGNED_2 {
        2
    } else if r_type == X86_64_RELOC_SIGNED_4 {
        4
    } else {
        0
    }
}

/// The SIGNED_K relocation types describe a pcrel field followed by K more
/// instruction bytes; the extra distance is folded into the addend when
/// reading and taken back out when writing.
fn reloc_bias(r_type: u8) -> (r: i64)
    ensures
        r == bias_of(r_type),
{
    if r_type == X86_64_RELOC_SIGNED_1 {
        1
    } else if r_type == X86_64_RELOC_SIGNED_2 {
        2
    } else if r_type == X86_64_RELOC_SIGNED_4 {
        4
    } else {
        0
    }
}

/// The addend that the record's field holds, with the type's bias added.
/// On x86-64 every relocation's addend is embedded in the relocated field.
pub open spec fn embedded_addend(hdr: SectionView, data: Seq<u8>, r: MachRel) -> Result<
    int,
    RelocError,
> {
    let off = hdr.offset + r.r_address;
    if r.p2size() == 2 {
        if off + 4 <= data.len() {
            Ok(
                bytes::signed64(
                    bytes::word64(bytes::signed32(bytes::u32_at(data, off)) + bias_of(r.kind())),
                ),
            )
        } else {
            Err(RelocError::Truncated)
        }
    } else if r.p2size() == 3 {
        if off + 8 <= data.len() {
            Ok(bytes::signed64(bytes::word64(bytes::u64_at(data, off) + bias_of(r.kind()))))
        } else {
            Err(RelocError::Truncated)
        }
    } else {
        Err(RelocError::BadSize)
    }
}

/// Reads the addend that the record's field holds.
fn read_embedded(hdr: &MachSection, file_data: &[u8], r: &MachRel) -> (res: Result<
    i64,
    RelocError,
>)
    ensures
        match res {
            Ok(a) => embedded_addend(hdr@, file_data@, *r) == Ok::<int, RelocError>(a as int),
            Err(e) => embedded_addend(hdr@, file_data@, *r) == Err::<int, RelocError>(e),
        },
{
    let off: u64 = hdr.offset as u64 + r.r_address as u64;
    let p2size: u32 = r.r_length();
    let bias: i64 = reloc_bias(r.r_type());
    if p2size == 2 {
        if (file_data.len() as u64) < off + 4 {
            return Err(RelocError::Truncated);
        }
        let v: i64 = bytes::to_signed32(bytes::get32(file_data, off as usize));
        Ok(bytes::to_signed64(bytes::from_signed64(v + bias)))
    } else if p2size == 3 {
        if (file_data.len() as u64) < off + 8 {
            return Err(RelocError::Truncated);
        }
        let v: u64 = bytes::get64(file_data, off as usize);
        Ok(bytes::to_signed64(bytes::offset_by(v, bias)))
    } else {
        Err(RelocError::BadSize)
    }
}

/// The relocations of the records from `i` on, after those in `acc`.
pub open spec fn relocs_from(
    sections: Seq<SectionView>,
    hdr: SectionView,
    data: Seq<u8>,
    rels: Seq<MachRel>,
    i: int,
    acc: Seq<Reloc>,
) -> Result<Seq<Reloc>, RelocError>
    decreases rels.len() - i,
{
    if i < 0 || i >= rels.len() {
        Ok(acc)
    } else {
        match embedded_addend(hdr, data, rels[i]) {
            Err(e) => Err(e),
            Ok(addend) => match super::arm64::target_of(sections, hdr, rels[i], addend, 4) {
                Err(e) => Err(e),
                Ok((target, a)) => {
                    let is_subtracted = i > 0 && rels[i - 1].kind() == X86_64_RELOC_SUBTRACTOR;
                    relocs_from(
                        sections,
                        hdr,
                        data,
                        rels,
                        i + 1,
                        acc.push(super::arm64::reloc_of(rels[i], is_subtracted, target, a)),
                    )
                },
            },
        }
    }
}

/// True when the instruction before the field is a load that becomes an
/// address computation: a `movq` (0x8b) of a slot whose target is local
/// becomes a `leaq` (0x8d) of the target itself.
pub open spec fn relaxes(x: ResolvedReloc, b: Seq<u8>) -> bool {
    let off = x.rel.offset as int;
    &&& (x.rel.r_type == X86_64_RELOC_GOT_LOAD || x.rel.r_type == X86_64_RELOC_TLV)
    &&& 2 <= off
    &&& off - 2 < b.len()
    &&& b[off - 2] == 0x8b
    &&& x.is_sym
    &&& !x.is_imported
}

/// The word that a pc-relative relocation at address `p` leaves.
pub open spec fn relocated_word(x: ResolvedReloc, relaxed: bool, p: u64) -> Result<
    u32,
    ApplyError,
> {
    let r = x.rel;
    let next = bytes::word64(p + 4);
    let sa = bytes::word64(x.s + r.addend);
    let got = bytes::word64(x.got + r.addend);
    let tlv = bytes::word64(x.tlv_ptr + r.addend);
    if r.r_type == X86_64_RELOC_BRANCH || ((r.r_type == X86_64_RELOC_GOT_LOAD || r.r_type
        == X86_64_RELOC_TLV) && relaxed) {
        Ok(bytes::word32(bytes::word64(sa - next) as int))
    } else if r.r_type == X86_64_RELOC_SIGNED || r.r_type == X86_64_RELOC_SIGNED_1 || r.r_type
        == X86_64_RELOC_SIGNED_2 || r.r_type == X86_64_RELOC_SIGNED_4 {
        Ok(bytes::word32(bytes::word64(bytes::word64(sa - next) - bias_of(r.r_type)) as int))
    } else if r.r_type != X86_64_RELOC_GOT_LOAD && r.r_type != X86_64_RELOC_GOT && r.r_type
        != X86_64_RELOC_TLV {
        Err(ApplyError::UnsupportedType(r.r_type))
    } else if !x.is_sym {
        Err(ApplyError::NeedsSymbol)
    } else if r.r_type == X86_64_RELOC_TLV {
        Ok(bytes::word32(bytes::word64(tlv - next) as int))
    } else {
        Ok(bytes::word32(bytes::word64(got - next) as int))
    }
}

/// Computes the word that a pc-relative relocation at address `p` leaves.
fn relocate_word(x: &ResolvedReloc, relaxed: bool, p: u64) -> (res: Result<u32, ApplyError>)
    ensures
        res == relocated_word(*x, relaxed, p),
{
    let r: Reloc = x.rel;
    let next: u64 = bytes::sum64(p, 4);
    let sa: u64 = bytes::offset_by(x.s, r.addend);
    let got: u64 = bytes::offset_by(x.got, r.addend);
    let tlv: u64 = bytes::offset_by(x.tlv_ptr, r.addend);
    if r.r_type == X86_64_RELOC_BRANCH || ((r.r_type == X86_64_RELOC_GOT_LOAD || r.r_type
        == X86_64_RELOC_TLV) && relaxed) {
        Ok(bytes::low32(bytes::distance(sa, next)))
    } else if r.r_type == X86_64_RELOC_SIGNED || r.r_type == X86_64_RELOC_SIGNED_1 || r.r_type
        == X86_64_RELOC_SIGNED_2 || r.r_type == X86_64_RELOC_SIGNED_4 {
        let bias: u64 = reloc_bias(r.r_type) as u64;
        Ok(bytes::low32(bytes::distance(bytes::distance(sa, next), bias)))
    } else if r.r_type != X86_64_RELOC_GOT_LOAD && r.r_type != X86_64_RELOC_GOT && r.r_type
        != X86_64_RELOC_TLV {
        Err(ApplyError::UnsupportedType(r.r_type))
    } else if !x.is_sym {
        Err(ApplyError::NeedsSymbol)
    } else if r.r_type == X86_64_RELOC_TLV {
        Ok(bytes::low32(bytes::distance(tlv, next)))
    } else {
        Ok(bytes::low32(bytes::distance(got, next)))
    }
}

/// The bytes after the relocation at `i` is applied, and the index of the
/// next one.
#[verifier::opaque]
pub open spec fn apply_one(
    rels: Seq<ResolvedReloc>,
    i: int,
    base: u64,
    tls_begin: u64,
    b: Seq<u8>,
) -> Result<(Seq<u8>, int), ApplyError> {
    let x = rels[i];
    let r = x.rel;
    let off = r.offset as int;
    let p = bytes::word64(base + r.offset);
    let sa = bytes::word64(x.s + r.addend);
    if r.r_type == X86_64_RELOC_UNSIGNED {
        if x.is_imported {
            Ok((b, i + 1))
        } else if off + 8 > b.len() {
            Err(ApplyError::OutOfBounds)
        } else if x.is_tls {
            Ok((bytes::patched(b, off, bytes::le64(bytes::word64(sa - tls_begin))), i + 1))
        } else {
            Ok((bytes::patched(b, off, bytes::le64(sa)), i + 1))
        }
    } else if r.r_type == X86_64_RELOC_SUBTRACTOR {
        if i + 1 >= rels.len() || (r.size != 4 && r.size != 8) {
            Err(ApplyError::BadSubtractor)
        } else if off + r.size > b.len() {
            Err(ApplyError::OutOfBounds)
        } else {
            let y = rels[i + 1];
            let val = bytes::word64(bytes::word64(y.s + y.rel.addend) - x.s);
            if r.size == 4 {
                Ok((bytes::patched(b, off, bytes::le32(bytes::word32(val as int))), i + 2))
            } else {
                Ok((bytes::patched(b, off, bytes::le64(val)), i + 2))
            }
        }
    } else if off + 4 > b.len() {
        Err(ApplyError::OutOfBounds)
    } else {
        let b1 = if relaxes(x, b) {
            b.update(off - 2, 0x8du8)
        } else {
            b
        };
        match relocated_word(x, relaxes(x, b), p) {
            Ok(word) => Ok((bytes::patched(b1, off, bytes::le32(word)), i + 1)),
            Err(e) => Err(e),
        }
    }
}

/// The bytes after the relocations from `i` on are applied.
pub open spec fn apply_from(
    rels: Seq<ResolvedReloc>,
    i: int,
    base: u64,
    tls_begin: u64,
    b: Seq<u8>,
) -> Result<Seq<u8>, ApplyError>
    decreases rels.len() - i,
{
    if i < 0 || i >= rels.len() {
        Ok(b)
    } else {
        match apply_one(rels, i, base, tls_begin, b) {
            Ok((next, j)) => if j <= i || j > rels.len() {
                Ok(next)
            } else {
                apply_from(rels, j, base, tls_begin, next)
            },
            Err(e) => Err(e),
        }
    }
}

/// Applies the relocation at `i`, returning the index of the next one.
fn apply_reloc(
    rels: &[ResolvedReloc],
    i: usize,
    base: u64,
    tls_begin: u64,
    buf: &mut Vec<u8>,
) -> (res: Result<usize, ApplyError>)
    requires
        i < rels.len(),
    ensures
        match res {
            Ok(j) => apply_one(rels@, i as int, base, tls_begin, old(buf)@) == Ok::<
                (Seq<u8>, int),
                ApplyError,
            >((final(buf)@, j as int)) && i < j <= rels.len() && final(buf).len() == old(buf).len(),
            Err(e) => apply_one(rels@, i as int, base, tls_begin, old(buf)@) == Err::<
                (Seq<u8>, int),
                ApplyError,
            >(e),
        },
{
    proof {
        reveal(apply_one);
    }
    let x: ResolvedReloc = rels[i];
    let r: Reloc = x.rel;
    let off: usize = r.offset as usize;
    let p: u64 = bytes::sum64(base, r.offset as u64);
    let sa: u64 = bytes::offset_by(x.s, r.addend);
    if r.r_type == X86_64_RELOC_UNSIGNED {
        if x.is_imported {
            // The slot is filled by dyld.
            return Ok(i + 1);
        }
        if buf.len() < 8 || off > buf.len() - 8 {
            return Err(ApplyError::OutOfBounds);
        }
        if x.is_tls {
            bytes::put64(buf, off, bytes::distance(sa, tls_begin));
        } else {
            bytes::put64(buf, off, sa);
        }
        return Ok(i + 1);
    }
    if r.r_type == X86_64_RELOC_SUBTRACTOR {
        if i + 1 >= rels.len() || (r.size != 4 && r.size != 8) {
            return Err(ApplyError::BadSubtractor);
        }
        if buf.len() < r.size as usize || off > buf.len() - r.size as usize {
            return Err(ApplyError::OutOfBounds);
        }
        let y: ResolvedReloc = rels[i + 1];
        let val: u64 = bytes::distance(bytes::offset_by(y.s, y.rel.addend), x.s);
        if r.size == 4 {
            bytes::put32(buf, off, bytes::low32(val));
        } else {
            bytes::put64(buf, off, val);
        }
        return Ok(i + 2);
    }
    if buf.len() < 4 || off > buf.len() - 4 {
        return Err(ApplyError::OutOfBounds);
    }
    let relaxed: bool = (r.r_type == X86_64_RELOC_GOT_LOAD || r.r_type == X86_64_RELOC_TLV) && off
        >= 2 && buf[off - 2] == 0x8b && x.is_sym && !x.is_imported;
    match relocate_word(&x, relaxed, p) {
        Ok(word) => {
            if relaxed {
                buf.set(off - 2, 0x8d);
            }
            bytes::put32(buf, off, word);
            Ok(i + 1)
        },
        Err(e) => Err(e),
    }
}

impl Arch for X86_64 {
    open spec fn info() -> ArchInfo {
        ArchInfo {
            cputype: CPU_TYPE_X86_64,
            cpusubtype: CPU_SUBTYPE_X86_64_ALL,
            page_size: 4096,
            stub_size: 6,
            unwind_mode_dwarf: 0x0400_0000,
            objc_stub_size: 16,
            branch_range: 0x1_0000_0000,
            thunk_size: 0,
            reloc_unsigned: X86_64_RELOC_UNSIGNED,
            reloc_subtractor: X86_64_RELOC_SUBTRACTOR,
            reloc_gotpc: X86_64_RELOC_GOT,
            reloc_addend: 0xff,
        }
    }

    fn get_info() -> (r: ArchInfo) {
        ArchInfo {
            cputype: CPU_TYPE_X86_64,
            cpusubtype: CPU_SUBTYPE_X86_64_ALL,
            page_size: 4096,
            stub_size: 6,
            unwind_mode_dwarf: 0x0400_0000,
            objc_stub_size: 16,
            branch_range: 0x1_0000_0000,
            thunk_size: 0,
            reloc_unsigned: X86_64_RELOC_UNSIGNED,
            reloc_subtractor: X86_64_RELOC_SUBTRACTOR,
            reloc_gotpc: X86_64_RELOC_GOT,
            reloc_addend: 0xff,
        }
    }

    proof fn info_ok() {
    }

    proof fn sizes_ok(addr: u64, slot: u64, msgsend: u64) {
    }

    open spec fn addend_record(r_type: u8) -> bool {
        false
    }

    fn relocatable_needs_addend(r_type: u8) -> (r: bool) {
        false
    }

    open spec fn class_of(r_type: u8) -> RelocClass {
        if r_type == X86_64_RELOC_BRANCH {
            RelocClass::Branch
        } else if r_type == X86_64_RELOC_GOT_LOAD {
            RelocClass::GotLoad
        } else if r_type == X86_64_RELOC_GOT {
            RelocClass::Got
        } else if r_type == X86_64_RELOC_TLV {
            RelocClass::Tlv
        } else {
            RelocClass::Plain
        }
    }

    fn classify_reloc(r_type: u8) -> (r: RelocClass) {
        if r_type == X86_64_RELOC_BRANCH {
            RelocClass::Branch
        } else if r_type == X86_64_RELOC_GOT_LOAD {
            RelocClass::GotLoad
        } else if r_type == X86_64_RELOC_GOT {
            RelocClass::Got
        } else if r_type == X86_64_RELOC_TLV {
            RelocClass::Tlv
        } else {
            RelocClass::Plain
        }
    }

    open spec fn relaxable(data: Seq<u8>, offset: u32, r_type: u8) -> bool {
        2 <= offset && offset - 2 < data.len() && data[offset - 2] == 0x8b
    }

    fn can_relax_got_load(data: &[u8], offset: u32, r_type: u8) -> (r: bool) {
        offset >= 2 && ((offset - 2) as usize) < data.len() && data[(offset - 2) as usize] == 0x8b
    }

    open spec fn relocs_of(
        sections: Seq<SectionView>,
        hdr: SectionView,
        data: Seq<u8>,
        rels: Seq<MachRel>,
    ) -> Result<Seq<Reloc>, RelocError> {
        relocs_from(sections, hdr, data, rels, 0, Seq::empty())
    }

    fn read_relocs(
        sections: &[MachSection],
        hdr: &MachSection,
        file_data: &[u8],
        rels: &[MachRel],
    ) -> (r: Result<Vec<Reloc>, RelocError>) {
        let mut out: Vec<Reloc> = Vec::new();
        let mut i: usize = 0;
        let ghost views = super::section_views(sections@);
        while i < rels.len()
            invariant
                i <= rels.len(),
                sections.len() < 0x8000_0000,
                views == super::section_views(sections@),
                relocs_from(views, hdr@, file_data@, rels@, 0, Seq::empty()) == relocs_from(
                    views,
                    hdr@,
                    file_data@,
                    rels@,
                    i as int,
                    out@,
                ),
            decreases rels.len() - i,
        {
            let r: MachRel = rels[i];
            let addend: i64 = match read_embedded(hdr, file_data, &r) {
                Ok(a) => a,
                Err(e) => return Err(e),
            };
            let is_subtracted: bool = i > 0 && rels[i - 1].r_type() == X86_64_RELOC_SUBTRACTOR;
            let (target, a) = match find_target(sections, hdr, &r, addend, 4) {
                Ok(pair) => pair,
                Err(e) => return Err(e),
            };
            out.push(
                Reloc {
                    offset: r.r_address,
                    r_type: r.r_type(),
                    size: field_size(&r),
                    is_pcrel: r.is_pcrel(),
                    is_subtracted,
                    target: target.pack(),
                    addend: a,
                    thunk_off: u32::MAX,
                },
            );
            i = i + 1;
        }
        Ok(out)
    }

    open spec fn applied(
        rels: Seq<ResolvedReloc>,
        base: u64,
        tls_begin: u64,
        bytes: Seq<u8>,
    ) -> Result<Seq<u8>, ApplyError> {
        apply_from(rels, 0, base, tls_begin, bytes)
    }

    fn apply_relocs(
        rels: &[ResolvedReloc],
        base: u64,
        tls_begin: u64,
        buf: &mut Vec<u8>,
    ) -> (r: Result<(), ApplyError>) {
        let ghost before = buf@;
        let mut i: usize = 0;
        while i < rels.len()
            invariant
                i <= rels.len(),
                before == old(buf)@,
                buf.len() == before.len(),
                apply_from(rels@, 0, base, tls_begin, before) == apply_from(
                    rels@,
                    i as int,
                    base,
                    tls_begin,
                    buf@,
                ),
            decreases rels.len() - i,
        {
            match apply_reloc(rels, i, base, tls_begin, buf) {
                Ok(j) => {
                    i = j;
                },
                Err(e) => return Err(e),
            }
        }
        Ok(())
    }

    open spec fn stub(addr: u64, slot: u64) -> Seq<u8> {
        seq![0xffu8, 0x25] + bytes::le32(
            bytes::word32(bytes::word64(slot - bytes::word64(addr + 6)) as int),
        )
    }

    /// jmp *ptr(%rip)
    fn push_stub(buf: &mut Vec<u8>, addr: u64, slot: u64) {
        buf.push(0xff);
        buf.push(0x25);
        let dist: u64 = bytes::distance(slot, bytes::sum64(addr, 6));
        bytes::push32(buf, bytes::low32(dist));
        assert(buf@ =~= old(buf)@ + Self::stub(addr, slot));
    }

    open spec fn objc_stub(addr: u64, selref: u64, msgsend: u64) -> Seq<u8> {
        seq![0x48u8, 0x8b, 0x35] + bytes::le32(
            bytes::word32(bytes::word64(selref - bytes::word64(addr + 7)) as int),
        ) + seq![0xffu8, 0x25] + bytes::le32(
            bytes::word32(bytes::word64(msgsend - bytes::word64(addr + 13)) as int),
        ) + seq![0xccu8, 0xcc, 0xcc]
    }

    /// mov sel(%rip), %rsi; jmp *_objc_msgSend@GOT(%rip); int3 x3
    fn push_objc_stub(buf: &mut Vec<u8>, addr: u64, selref: u64, msgsend: u64) {
        buf.push(0x48);
        buf.push(0x8b);
        buf.push(0x35);
        let sel: u64 = bytes::distance(selref, bytes::sum64(addr, 7));
        bytes::push32(buf, bytes::low32(sel));
        buf.push(0xff);
        buf.push(0x25);
        let send: u64 = bytes::distance(msgsend, bytes::sum64(addr, 13));
        bytes::push32(buf, bytes::low32(send));
        buf.push(0xcc);
        buf.push(0xcc);
        buf.push(0xcc);
        assert(buf@ =~= old(buf)@ + Self::objc_stub(addr, selref, msgsend));
    }

    open spec fn thunk(addr: u64, target: u64) -> Seq<u8> {
        Seq::empty()
    }

    /// x86-64 branches never need thunks.
    fn push_thunk(buf: &mut Vec<u8>, addr: u64, target: u64) {
        assert(buf@ =~= buf@ + Self::thunk(addr, target));
    }
}

} // verus!
