//! What reading relocation records keeps of them, and that reading and
//! applying undo each other.
use super::arm64::{self, Arm64};
use super::x86_64::{self, X86_64};
use super::x86_64_laws::bytes_behind;
use super::{section_at, Arch, RelocError, ResolvedReloc};
use crate::input_sections::{Reloc, RelocTarget};
use crate::macho::{MachRel, SectionView};
use crate::util::bytes;
use vstd::arithmetic::power2;
use vstd::prelude::*;

verus! {

/// The number of bytes of a record's field.
pub open spec fn width(r: MachRel) -> int {
    if r.p2size() == 0 {
        1
    } else if r.p2size() == 1 {
        2
    } else if r.p2size() == 2 {
        4
    } else {
        8
    }
}

/// True when a relocation says of its field what the record says.
pub open spec fn keeps_record(r: MachRel, rel: Reloc) -> bool {
    &&& rel.offset == r.r_address
    &&& rel.r_type == r.kind()
    &&& rel.size == width(r)
    &&& rel.is_pcrel == r.pcrel()
}

/// What an x86-64 record about a symbol becomes: a relocation of that
/// symbol, whose addend is what the field holds, as a signed number, plus
/// the bytes that stand behind the field.
#[verifier::spinoff_prover]
#[verifier::rlimit(60)]
pub proof fn lemma_x86_64_symbol_read(
    sections: Seq<SectionView>,
    hdr: SectionView,
    data: Seq<u8>,
    r: MachRel,
)
    requires
        r.external(),
        r.p2size() == 2 || r.p2size() == 3,
        hdr.offset + r.r_address + 8 <= data.len(),
    ensures
        X86_64::relocs_of(sections, hdr, data, seq![r]) matches Ok(v) && v.len() == 1
            && keeps_record(r, v[0]) && !v[0].is_subtracted && v[0].refers_to() == RelocTarget::Sym(
            r.symnum(),
        ) && (v[0].addend - bytes_behind(r.kind()) - if r.p2size() == 2 {
            bytes::signed32(bytes::u32_at(data, hdr.offset + r.r_address))
        } else {
            bytes::u64_at(data, hdr.offset + r.r_address) as int
        }) % 0x1_0000_0000_0000_0000 == 0,
{
    let rels = seq![r];
    reveal(bytes::word64);
    let a = x86_64::embedded_addend(hdr, data, r)->Ok_0;
    let rel = arm64::reloc_of(r, false, RelocTarget::Sym(r.symnum()), a);
    let acc = Seq::<Reloc>::empty().push(rel);
    assert(x86_64::relocs_from(sections, hdr, data, rels, 1, acc) == Ok::<
        Seq<Reloc>,
        RelocError,
    >(acc));
    assert(X86_64::relocs_of(sections, hdr, data, rels) == Ok::<Seq<Reloc>, RelocError>(acc));
    assert(-0x8000_0000_0000_0000 <= a < 0x8000_0000_0000_0000);
}

proof fn lemma_section_at(sections: Seq<SectionView>, addr: int, from: int)
    requires
        0 <= from <= sections.len(),
    ensures
        section_at(sections, addr, from) matches Some(i) ==> from <= i < sections.len()
            && sections[i].addr <= addr < sections[i].addr + sections[i].size,
        section_at(sections, addr, from) is None ==> forall|i: int|
            from <= i < sections.len() ==> !((#[trigger] sections[i]).addr <= addr
                < sections[i].addr + sections[i].size),
    decreases sections.len() - from,
{
    if from < sections.len() && !(sections[from].addr <= addr < sections[from].addr
        + sections[from].size) {
        lemma_section_at(sections, addr, from + 1);
    }
}

/// An x86-64 displacement to an address of its own file becomes a relocation
/// of the section that holds the address. If the section and the field stay
/// where they were, applying it gives the field's bytes back.
pub proof fn lemma_x86_64_displacement_undone(
    sections: Seq<SectionView>,
    hdr: SectionView,
    data: Seq<u8>,
    r: MachRel,
    p: u64,
)
    requires
        !r.external(),
        r.pcrel(),
        r.p2size() == 2,
        r.kind() == 1 || 6 <= r.kind() <= 8,
        hdr.offset + r.r_address + 4 <= data.len(),
        p == hdr.addr + r.r_address,
        p + 8 <= u64::MAX,
        sections.len() < 0x8000_0000,
        forall|i: int| 0 <= i < sections.len() ==> (#[trigger] sections[i]).size <= i64::MAX,
        X86_64::relocs_of(sections, hdr, data, seq![r]) is Ok,
    ensures
        ({
            let v = X86_64::relocs_of(sections, hdr, data, seq![r])->Ok_0;
            let field = bytes::u32_at(data, hdr.offset + r.r_address);
            let target = (p + 4 + bytes_behind(r.kind()) + bytes::signed32(field))
                % 0x1_0000_0000_0000_0000;
            &&& v.len() == 1
            &&& keeps_record(r, v[0])
            &&& v[0].refers_to() matches RelocTarget::Section(i) && i < sections.len()
                && sections[i as int].addr + v[0].addend == target && v[0].addend
                < sections[i as int].size && forall|x: ResolvedReloc|
                x.rel == v[0] && x.s == sections[i as int].addr
                    ==> #[trigger] x86_64::relocated_word(x, false, p) == Ok::<
                    u32,
                    super::ApplyError,
                >(field)
        }),
{
    let field = bytes::u32_at(data, hdr.offset + r.r_address);
    let k = bytes_behind(r.kind());
    lemma_x86_64_section_read(sections, hdr, data, r, p);
    let v = X86_64::relocs_of(sections, hdr, data, seq![r])->Ok_0;
    let i = match v[0].refers_to() {
        RelocTarget::Section(i) => i,
        RelocTarget::Sym(_) => 0,
    };
    let b = v[0].addend as int;
    assert(bytes::word64(p + 4) == p + 4) by {
        reveal(bytes::word64);
    }
    assert forall|x: ResolvedReloc|
        x.rel == v[0] && x.s == sections[i as int].addr implies #[trigger] x86_64::relocated_word(
        x,
        false,
        p,
    ) == Ok::<u32, super::ApplyError>(field) by {
        lemma_undone(x.s as int, b, p as int, k, field);
    }
}

#[verifier::spinoff_prover]
#[verifier::rlimit(60)]
proof fn lemma_x86_64_section_read(
    sections: Seq<SectionView>,
    hdr: SectionView,
    data: Seq<u8>,
    r: MachRel,
    p: u64,
)
    requires
        !r.external(),
        r.pcrel(),
        r.p2size() == 2,
        r.kind() == 1 || 6 <= r.kind() <= 8,
        hdr.offset + r.r_address + 4 <= data.len(),
        p == hdr.addr + r.r_address,
        p + 8 <= u64::MAX,
        sections.len() < 0x8000_0000,
        forall|i: int| 0 <= i < sections.len() ==> (#[trigger] sections[i]).size <= i64::MAX,
        X86_64::relocs_of(sections, hdr, data, seq![r]) is Ok,
    ensures
        ({
            let v = X86_64::relocs_of(sections, hdr, data, seq![r])->Ok_0;
            let field = bytes::u32_at(data, hdr.offset + r.r_address);
            let target = (p + 4 + bytes_behind(r.kind()) + bytes::signed32(field))
                % 0x1_0000_0000_0000_0000;
            &&& v.len() == 1
            &&& keeps_record(r, v[0])
            &&& v[0].refers_to() matches RelocTarget::Section(i) && i < sections.len()
                && sections[i as int].addr + v[0].addend == target && v[0].addend
                < sections[i as int].size
        }),
{
    let rels = seq![r];
    let field = bytes::u32_at(data, hdr.offset + r.r_address);
    let k = bytes_behind(r.kind());
    let a = x86_64::embedded_addend(hdr, data, r)->Ok_0;
    assert(a == bytes::signed32(field) + k) by {
        reveal(bytes::word64);
    }
    let addr = bytes::word64(p + 4 + a);
    assert(addr == (p + 4 + k + bytes::signed32(field)) % 0x1_0000_0000_0000_0000) by {
        reveal(bytes::word64);
    }
    lemma_section_at(sections, addr as int, 0);
    let i = section_at(sections, addr as int, 0)->0;
    let off = addr - sections[i].addr;
    assert(sections[i].size <= i64::MAX);
    let b = bytes::signed64(off as u64);
    let rel = arm64::reloc_of(r, false, RelocTarget::Section(i as u32), b);
    let acc = Seq::<Reloc>::empty().push(rel);
    assert(arm64::target_of(sections, hdr, r, a, 4) == Ok::<(RelocTarget, int), RelocError>(
        (RelocTarget::Section(i as u32), b),
    ));
    assert(x86_64::relocs_from(sections, hdr, data, rels, 1, acc) == Ok::<
        Seq<Reloc>,
        RelocError,
    >(acc));
    assert(X86_64::relocs_of(sections, hdr, data, rels) == Ok::<Seq<Reloc>, RelocError>(acc));
}

proof fn lemma_undone(s: int, b: int, p: int, k: int, field: u32)
    requires
        0 <= p,
        p + 8 <= u64::MAX,
        s + b == (p + 4 + k + bytes::signed32(field)) % 0x1_0000_0000_0000_0000,
    ensures
        bytes::word32(
            bytes::word64(bytes::word64(bytes::word64(s + b) - (p + 4)) - k) as int,
        ) == field,
{
    let t = p + 4 + k + bytes::signed32(field);
    assert(s + b == bytes::word64(t)) by {
        reveal(bytes::word64);
    }
    bytes::lemma_word64_sum(t, 0);
    bytes::lemma_word64_sum(t, -(p + 4));
    bytes::lemma_word64_sum(t - (p + 4), -k);
    bytes::lemma_word32_word64(t - (p + 4) - k);
    reveal(bytes::word32);
}

/// What an ARM64 record about a symbol becomes: a relocation of that symbol,
/// with the addend that the field of an absolute record holds, and none for
/// the other types.
pub proof fn lemma_arm64_symbol_read(
    sections: Seq<SectionView>,
    hdr: SectionView,
    data: Seq<u8>,
    r: MachRel,
)
    requires
        r.external(),
        r.kind() != 10,
        r.kind() == 0 ==> r.p2size() == 2 || r.p2size() == 3,
        hdr.offset + r.r_address + 8 <= data.len(),
    ensures
        Arm64::relocs_of(sections, hdr, data, seq![r]) matches Ok(v) && v.len() == 1
            && keeps_record(r, v[0]) && !v[0].is_subtracted && v[0].refers_to() == RelocTarget::Sym(
            r.symnum(),
        ) && v[0].addend == if r.kind() != 0 {
            0
        } else if r.p2size() == 2 {
            bytes::signed32(bytes::u32_at(data, hdr.offset + r.r_address))
        } else {
            bytes::signed64(bytes::u64_at(data, hdr.offset + r.r_address))
        },
{
    let rels = seq![r];
    let (a, _) = arm64::addend_at(hdr, data, rels, 0)->Ok_0;
    let rel = arm64::reloc_of(r, false, RelocTarget::Sym(r.symnum()), a);
    let acc = Seq::<Reloc>::empty().push(rel);
    assert(arm64::relocs_from(sections, hdr, data, rels, 1, acc) == Ok::<
        Seq<Reloc>,
        RelocError,
    >(acc));
    assert(Arm64::relocs_of(sections, hdr, data, rels) == Ok::<Seq<Reloc>, RelocError>(acc));
}

/// An ARM64 addend record gives the record behind it the signed number in
/// its 24 bits, and makes no relocation of its own.
pub proof fn lemma_arm64_addend_read(
    sections: Seq<SectionView>,
    hdr: SectionView,
    data: Seq<u8>,
    first: MachRel,
    r: MachRel,
)
    requires
        first.kind() == 10,
        r.external(),
    ensures
        Arm64::relocs_of(sections, hdr, data, seq![first, r]) matches Ok(v) && v.len() == 1
            && keeps_record(r, v[0]) && v[0].refers_to() == RelocTarget::Sym(r.symnum())
            && v[0].addend == if first.symnum() < 0x80_0000 {
            first.symnum() as int
        } else {
            first.symnum() - 0x100_0000
        },
{
    power2::lemma2_to64();
    let rels = seq![first, r];
    let (a, j) = arm64::addend_at(hdr, data, rels, 0)->Ok_0;
    assert(power2::pow2(23nat + 1) == 0x100_0000 && power2::pow2(23) == 0x80_0000);
    assert(first.symnum() < 0x100_0000);
    assert(a == if first.symnum() < 0x80_0000 {
        first.symnum() as int
    } else {
        first.symnum() - 0x100_0000
    });
    let rel = arm64::reloc_of(r, false, RelocTarget::Sym(r.symnum()), a);
    let acc = Seq::<Reloc>::empty().push(rel);
    assert(arm64::relocs_from(sections, hdr, data, rels, 2, acc) == Ok::<
        Seq<Reloc>,
        RelocError,
    >(acc));
    assert(Arm64::relocs_of(sections, hdr, data, rels) == Ok::<Seq<Reloc>, RelocError>(acc));
}

/// The absolute record behind a subtraction is marked as its second half, on
/// both targets.
pub proof fn lemma_subtraction_read(
    sections: Seq<SectionView>,
    hdr: SectionView,
    data: Seq<u8>,
    first: MachRel,
    r: MachRel,
)
    requires
        first.external(),
        r.external(),
        r.kind() == 0,
        r.p2size() == 2 || r.p2size() == 3,
        first.p2size() == r.p2size(),
        hdr.offset + first.r_address + 8 <= data.len(),
        hdr.offset + r.r_address + 8 <= data.len(),
    ensures
        first.kind() == 1 ==> (Arm64::relocs_of(sections, hdr, data, seq![first, r]) matches Ok(v)
            && v.len() == 2 && !v[0].is_subtracted && v[1].is_subtracted && keeps_record(
            first,
            v[0],
        ) && keeps_record(r, v[1]) && v[0].refers_to() == RelocTarget::Sym(first.symnum())
            && v[1].refers_to() == RelocTarget::Sym(r.symnum())),
        first.kind() == 5 ==> (X86_64::relocs_of(sections, hdr, data, seq![first, r]) matches Ok(v)
            && v.len() == 2 && !v[0].is_subtracted && v[1].is_subtracted && keeps_record(
            first,
            v[0],
        ) && keeps_record(r, v[1]) && v[0].refers_to() == RelocTarget::Sym(first.symnum())
            && v[1].refers_to() == RelocTarget::Sym(r.symnum())),
{
    let rels = seq![first, r];
    let none = Seq::<Reloc>::empty();
    if first.kind() == 1 {
        let (a, _) = arm64::addend_at(hdr, data, rels, 0)->Ok_0;
        let (b, _) = arm64::addend_at(hdr, data, rels, 1)->Ok_0;
        let v = none.push(arm64::reloc_of(first, false, RelocTarget::Sym(first.symnum()), a));
        let w = v.push(arm64::reloc_of(r, true, RelocTarget::Sym(r.symnum()), b));
        assert(arm64::relocs_from(sections, hdr, data, rels, 2, w) == Ok::<
            Seq<Reloc>,
            RelocError,
        >(w));
        assert(arm64::relocs_from(sections, hdr, data, rels, 1, v) == Ok::<
            Seq<Reloc>,
            RelocError,
        >(w));
        assert(Arm64::relocs_of(sections, hdr, data, rels) == Ok::<Seq<Reloc>, RelocError>(w));
    }
    if first.kind() == 5 {
        let a = x86_64::embedded_addend(hdr, data, first)->Ok_0;
        let b = x86_64::embedded_addend(hdr, data, r)->Ok_0;
        let v = none.push(arm64::reloc_of(first, false, RelocTarget::Sym(first.symnum()), a));
        let w = v.push(arm64::reloc_of(r, true, RelocTarget::Sym(r.symnum()), b));
        assert(x86_64::relocs_from(sections, hdr, data, rels, 2, w) == Ok::<
            Seq<Reloc>,
            RelocError,
        >(w));
        assert(x86_64::relocs_from(sections, hdr, data, rels, 1, v) == Ok::<
            Seq<Reloc>,
            RelocError,
        >(w));
        assert(X86_64::relocs_of(sections, hdr, data, rels) == Ok::<Seq<Reloc>, RelocError>(w));
    }
}

} // verus!
