//! What processors make of relocated instructions.
use super::ResolvedReloc;
use crate::macho::consts::{ARM64_RELOC_BRANCH26, X86_64_RELOC_BRANCH};
use crate::util::bytes;
use vstd::arithmetic::power2;
use vstd::prelude::*;

verus! {

/// A field of `n` bits in two's complement.
pub open spec fn signed_field(v: int, n: nat) -> int {
    if 2 * v >= power2::pow2(n) {
        v - power2::pow2(n)
    } else {
        v
    }
}

/// How far an ARM64 branch instruction jumps: its low 26 bits count words.
pub open spec fn branch_distance(insn: u32) -> int {
    4 * signed_field(insn as int % 0x400_0000, 26)
}

/// How far an ARM64 ADRP instruction reaches: 21 bits that count pages, of
/// which the low two are bits 30 and 29, and the others bits 23 to 5.
pub open spec fn adrp_distance(insn: u32) -> int {
    4096 * signed_field(
        (((insn >> 5u32) & 0x7ffff) * 4 + ((insn >> 29u32) & 3)) as int,
        21,
    )
}

proof fn lemma_powers()
    ensures
        power2::pow2(2) == 4,
        power2::pow2(3) == 8,
        power2::pow2(9) == 512,
        power2::pow2(12) == 4096,
        power2::pow2(14) == 16384,
        power2::pow2(19) == 524288,
        power2::pow2(21) == 0x20_0000,
        power2::pow2(26) == 0x400_0000,
        power2::pow2(0) == 1,
{
    power2::lemma2_to64();
}

/// A relocated ARM64 branch jumps to its target, if that is a multiple of
/// four bytes away and the branch had no distance of its own.
pub proof fn lemma_arm64_branch(x: ResolvedReloc, insn: u32, p: u64)
    requires
        x.rel.r_type == ARM64_RELOC_BRANCH26,
        super::arm64::relocated_insn(x, insn, p) is Ok,
        insn & 0x3ff_ffff == 0,
        bytes::word64(bytes::word64(x.s + x.rel.addend) - p) % 4 == 0,
    ensures
        ({
            let w = super::arm64::relocated_insn(x, insn, p)->Ok_0;
            &&& w & 0xfc00_0000 == insn
            &&& bytes::word64(p + branch_distance(w)) == bytes::word64(x.s + x.rel.addend)
        }),
{
    reveal(bytes::word64);
    lemma_powers();
    let sa = bytes::word64(x.s + x.rel.addend);
    let val = bytes::word64(sa - p);
    let f = super::arm64::field(val, 27, 2);
    let g = f as u32;
    let w = insn | g;
    assert(f == (val / 4) % 0x400_0000);
    assert(w & 0xfc00_0000 == insn && w % 0x400_0000 == g) by (bit_vector)
        requires
            insn & 0x3ff_ffff == 0,
            g < 0x400_0000,
            w == insn | g,
    ;
    assert(branch_distance(w) == bytes::signed64(val));
}

proof fn lemma_adrp_bits(insn: u32, hi: u32, lo: u32)
    requires
        hi < 0x8_0000,
        lo < 4,
        insn & 0x60ff_ffe0 == 0,
    ensures
        ({
            let w = insn | ((lo << 29u32) | (hi << 5u32));
            &&& (w >> 5u32) & 0x7ffff == hi
            &&& (w >> 29u32) & 3 == lo
            &&& w & 0x9f00_001f == insn
        }),
{
    let w = insn | ((lo << 29u32) | (hi << 5u32));
    assert((w >> 5u32) & 0x7ffff == hi && (w >> 29u32) & 3 == lo && w & 0x9f00_001f == insn)
        by (bit_vector)
        requires
            hi < 0x8_0000,
            lo < 4,
            insn & 0x60ff_ffe0 == 0,
            w == insn | ((lo << 29u32) | (hi << 5u32)),
    ;
}

proof fn lemma_page_distance(target: u64, p: u64)
    ensures
        (super::arm64::page_of(target) - super::arm64::page_of(p)) % 4096 == 0,
{
}

proof fn lemma_split_pages(v: int)
    requires
        0 <= v,
    ensures
        (v / 4) % 524288 * 4 + v % 4 == v % 0x20_0000,
{
}

proof fn lemma_pages(d: int, val: u64, hi: int, lo: int)
    requires
        -0x1_0000_0000 <= d < 0x1_0000_0000,
        d % 4096 == 0,
        val == bytes::word64(d),
        hi == (val / 16384) % 524288,
        lo == (val / 4096) % 4,
    ensures
        4096 * signed_field(hi * 4 + lo, 21) == d,
{
    reveal(bytes::word64);
    lemma_powers();
    let v = val as int / 4096;
    assert(val as int / 16384 == v / 4);
    lemma_split_pages(v);
    let pages = d / 4096;
    assert(d == 4096 * pages);
    if d >= 0 {
        assert(v == pages);
    } else {
        assert(v == 0x10_0000_0000_0000 + pages);
        assert(v % 0x20_0000 == 0x20_0000 + pages);
    }
}

/// An ARM64 ADRP instruction with the immediate for a target reaches the
/// target's page, if that is less than 4 GiB away.
pub proof fn lemma_arm64_adrp(insn: u32, target: u64, p: u64)
    requires
        insn & 0x60ff_ffe0 == 0,
        -0x1_0000_0000 <= super::arm64::page_of(target) - super::arm64::page_of(p) < 0x1_0000_0000,
    ensures
        ({
            let w = insn | super::arm64::adrp_imm(target, p);
            &&& w & 0x9f00_001f == insn
            &&& super::arm64::page_of(p) + adrp_distance(w) == super::arm64::page_of(target)
        }),
{
    lemma_powers();
    let d = super::arm64::page_of(target) - super::arm64::page_of(p);
    let val = bytes::word64(d);
    let lo = super::arm64::field(val, 13, 12) as u32;
    let hi = super::arm64::field(val, 32, 14) as u32;
    assert(lo == (val / 4096) % 4);
    assert(hi == (val / 16384) % 524288);
    lemma_adrp_bits(insn, hi, lo);
    lemma_page_distance(target, p);
    lemma_pages(d, val, hi as int, lo as int);
}

/// The page of an address and the offset in it make the address: what an
/// ADRP and the ADD behind it compute.
pub proof fn lemma_page_and_offset(target: u64)
    ensures
        super::arm64::page_of(target) + super::arm64::field(target, 11, 0) == target,
{
    lemma_powers();
    assert(super::arm64::field(target, 11, 0) == target % 4096);
}

/// The page of an aligned slot and the scaled offset in it make the slot's
/// address: what an ADRP and the load behind it read.
pub proof fn lemma_page_and_slot(slot: u64)
    requires
        slot % 8 == 0,
    ensures
        super::arm64::page_of(slot) + 8 * super::arm64::field(slot, 11, 3) == slot,
{
    lemma_powers();
    assert(super::arm64::field(slot, 11, 3) == (slot / 8) % 512);
}

/// A relocated x86-64 branch jumps to its target, counted from behind the
/// instruction, if that is less than 2 GiB away.
pub proof fn lemma_x86_64_branch(x: ResolvedReloc, relaxed: bool, p: u64)
    requires
        x.rel.r_type == X86_64_RELOC_BRANCH,
        -0x8000_0000 <= bytes::signed64(
            bytes::word64(bytes::word64(x.s + x.rel.addend) - bytes::word64(p + 4)),
        ) < 0x8000_0000,
    ensures
        super::x86_64::relocated_word(x, relaxed, p) matches Ok(w) && bytes::word64(
            p + 4 + bytes::signed32(w),
        ) == bytes::word64(x.s + x.rel.addend),
{
    reveal(bytes::word64);
    reveal(bytes::word32);
}

} // verus!
