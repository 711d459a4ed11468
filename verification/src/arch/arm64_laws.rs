//! What an ARM64 processor makes of relocated instructions and of the code
//! that the linker writes. The instructions are read field by field, as the
//! processor decodes them.
use super::arm64::{self, Arm64};
use super::laws::{adrp_distance, lemma_arm64_adrp};
use super::{Arch, ResolvedReloc};
use crate::util::bytes;
use vstd::arithmetic::power2;
use vstd::prelude::*;

verus! {

/// The address that a relocation refers to: the symbol's GOT slot for types
/// 5 to 7, its thread-local pointer for types 8 and 9, and the symbol itself
/// for the others, each with the addend, modulo 2^64.
pub open spec fn referenced(x: ResolvedReloc) -> int {
    let base = if 5 <= x.rel.r_type <= 7 {
        x.got
    } else if 8 <= x.rel.r_type <= 9 {
        x.tlv_ptr
    } else {
        x.s
    };
    (base + x.rel.addend) % 0x1_0000_0000_0000_0000
}

/// How many bytes one step of an instruction's 12-bit immediate stands for.
/// A load or store with an unsigned offset counts in its access size, which
/// the top two bits give, except that a vector access of size 0 with bit 23
/// set is one of 16 bytes. Every other instruction counts bytes.
pub open spec fn step_of(insn: u32) -> int {
    let size = insn >> 30u32;
    if insn & 0x3b00_0000 != 0x3900_0000 {
        1
    } else if size == 1 {
        2
    } else if size == 2 {
        4
    } else if size == 3 {
        8
    } else if insn & 0x0480_0000 == 0x0480_0000 {
        16
    } else {
        1
    }
}

/// The 12-bit immediate of an instruction.
pub open spec fn imm12(insn: u32) -> int {
    ((insn >> 10u32) & 0xfff) as int
}

/// The start of the 4 KiB page that holds an address.
pub open spec fn page_start(addr: int) -> int {
    addr - addr % 4096
}

proof fn lemma_steps(t: int)
    requires
        0 <= t,
    ensures
        t % 2 == 0 ==> (t / 2) % 2048 * 2 == t % 4096,
        t % 4 == 0 ==> (t / 4) % 1024 * 4 == t % 4096,
        t % 8 == 0 ==> (t / 8) % 512 * 8 == t % 4096,
        t % 16 == 0 ==> (t / 16) % 256 * 16 == t % 4096,
{
    vstd::arithmetic::div_mod::lemma_mod_breakdown(t, 2, 2048);
    vstd::arithmetic::div_mod::lemma_mod_breakdown(t, 4, 1024);
    vstd::arithmetic::div_mod::lemma_mod_breakdown(t, 8, 512);
    vstd::arithmetic::div_mod::lemma_mod_breakdown(t, 16, 256);
}

proof fn lemma_fields(t: u64)
    ensures
        arm64::field(t, 11, 0) == t % 4096,
        arm64::field(t, 11, 1) == (t / 2) % 2048,
        arm64::field(t, 11, 2) == (t / 4) % 1024,
        arm64::field(t, 11, 3) == (t / 8) % 512,
        arm64::field(t, 11, 4) == (t / 16) % 256,
{
    power2::lemma2_to64();
}

proof fn lemma_scaled(t: u64, k: nat, n: u64)
    requires
        (k == 0 && n == 1) || (k == 1 && n == 2) || (k == 2 && n == 4) || (k == 3 && n == 8) || (k
            == 4 && n == 16),
        t % n == 0,
    ensures
        arm64::field(t, 11, k) * n == t % 4096,
        arm64::field(t, 11, k) < 4096,
{
    lemma_fields(t);
    lemma_steps(t as int);
}

proof fn lemma_imm_bits(insn: u32, g: u32)
    requires
        insn & 0x003f_fc00 == 0,
        g < 4096,
    ensures
        ((insn | (g << 10u32)) >> 10u32) & 0xfff == g,
        (insn | (g << 10u32)) & 0xffc0_03ff == insn,
{
    assert(((insn | (g << 10u32)) >> 10u32) & 0xfff == g && (insn | (g << 10u32)) & 0xffc0_03ff
        == insn) by (bit_vector)
        requires
            insn & 0x003f_fc00 == 0,
            g < 4096,
    ;
}

/// An instruction whose immediate is clear gets the page offset of an
/// address in the steps that it counts in, and keeps its other bits.
proof fn lemma_with_imm(insn: u32, t: u64)
    requires
        insn & 0x003f_fc00 == 0,
        t as int % step_of(insn) == 0,
    ensures
        imm12(arm64::with_imm(insn, t)) * step_of(insn) == t as int % 4096,
        arm64::with_imm(insn, t) & 0xffc0_03ff == insn,
{
    assert(insn / 0x4000_0000 == insn >> 30u32 && insn >> 30u32 <= 3) by (bit_vector);
    let k = arm64::imm_scale(insn);
    let n = step_of(insn) as u64;
    lemma_scaled(t, k, n);
    let g = arm64::field(t, 11, k) as u32;
    lemma_imm_bits(insn, g);
}

/// A relocated load, store or ADD counts, in its own steps, the offset of
/// the referenced address in its page: for every access size, the immediate
/// times that size is the address modulo 4096. The other bits stay as they
/// are. The relocation types are those of a direct reference, of one through
/// the GOT and of one to a thread-local pointer.
pub proof fn lemma_relocated_offset(x: ResolvedReloc, insn: u32, p: u64)
    requires
        x.rel.r_type == 4 || x.is_sym && (x.rel.r_type == 6 || x.rel.r_type == 9),
        insn & 0x003f_fc00 == 0,
        referenced(x) % step_of(insn) == 0,
    ensures
        arm64::relocated_insn(x, insn, p) matches Ok(w) && imm12(w) * step_of(insn) == referenced(x)
            % 4096 && w & 0xffc0_03ff == insn,
{
    reveal(bytes::word64);
    lemma_with_imm(insn, referenced(x) as u64);
}

/// A relocated ADRP reaches the page of the referenced address, if that is
/// less than 4 GiB away, and keeps its other bits.
pub proof fn lemma_relocated_page(x: ResolvedReloc, insn: u32, p: u64)
    requires
        x.rel.r_type == 3 || x.is_sym && (x.rel.r_type == 5 || x.rel.r_type == 8),
        insn & 0x60ff_ffe0 == 0,
        -0x1_0000_0000 <= page_start(referenced(x)) - page_start(p as int) < 0x1_0000_0000,
    ensures
        arm64::relocated_insn(x, insn, p) matches Ok(w) && page_start(p as int) + adrp_distance(w)
            == page_start(referenced(x)) && w & 0x9f00_001f == insn,
{
    reveal(bytes::word64);
    lemma_arm64_adrp(insn, referenced(x) as u64, p);
}

/// An ADRP and the load behind it, both relocated against one aligned
/// address, read that address, and so with an ADD in place of the load.
pub proof fn lemma_pair_reaches(
    hi: ResolvedReloc,
    lo: ResolvedReloc,
    adrp: u32,
    insn: u32,
    p: u64,
    q: u64,
)
    requires
        hi.rel.r_type == 3 || hi.is_sym && (hi.rel.r_type == 5 || hi.rel.r_type == 8),
        lo.rel.r_type == 4 || lo.is_sym && (lo.rel.r_type == 6 || lo.rel.r_type == 9),
        referenced(hi) == referenced(lo),
        adrp & 0x60ff_ffe0 == 0,
        insn & 0x003f_fc00 == 0,
        referenced(lo) % step_of(insn) == 0,
        -0x1_0000_0000 <= page_start(referenced(hi)) - page_start(p as int) < 0x1_0000_0000,
    ensures
        ({
            let a = arm64::relocated_insn(hi, adrp, p);
            let b = arm64::relocated_insn(lo, insn, q);
            &&& a is Ok
            &&& b is Ok
            &&& page_start(p as int) + adrp_distance(a->Ok_0) + imm12(b->Ok_0) * step_of(insn)
                == referenced(lo)
        }),
{
    lemma_relocated_page(hi, adrp, p);
    lemma_relocated_offset(lo, insn, q);
}

/// A relocated pointer to a GOT slot counts the distance from its own place
/// to the slot, if that is less than 2 GiB.
pub proof fn lemma_relocated_got_distance(x: ResolvedReloc, insn: u32, p: u64)
    requires
        x.rel.r_type == 7,
        x.is_sym,
        -0x8000_0000 <= referenced(x) - p < 0x8000_0000,
    ensures
        arm64::relocated_insn(x, insn, p) matches Ok(w) && p + bytes::signed32(w) == referenced(x),
{
    reveal(bytes::word64);
    reveal(bytes::word32);
}

/// A direct reference to a symbol is never refused for want of a slot, and a
/// branch is refused exactly when its target is 128 MiB away or more.
pub proof fn lemma_refused(x: ResolvedReloc, insn: u32, p: u64)
    requires
        2 <= x.rel.r_type <= 9,
        -0x8000_0000_0000_0000 <= referenced(x) - p < 0x8000_0000_0000_0000,
    ensures
        arm64::relocated_insn(x, insn, p) is Err <==> (x.rel.r_type == 2 && !(-0x800_0000
            <= referenced(x) - p < 0x800_0000)) || (x.rel.r_type >= 5 && !x.is_sym),
{
    reveal(bytes::word64);
}

proof fn lemma_patched_word(b: Seq<u8>, off: int, v: u32)
    requires
        0 <= off,
        off + 4 <= b.len(),
    ensures
        bytes::u32_at(bytes::patched(b, off, bytes::le32(v)), off) == v,
        bytes::patched(b, off, bytes::le32(v)).len() == b.len(),
        forall|k: int|
            0 <= k < b.len() && !(off <= k < off + 4) ==> #[trigger] bytes::patched(
                b,
                off,
                bytes::le32(v),
            )[k] == b[k],
{
    reveal(bytes::u32_at);
    bytes::lemma_patched_len(b, off, bytes::le32(v));
    bytes::lemma_le32_round_trip(v);
}

proof fn lemma_patched_quad(b: Seq<u8>, off: int, v: u64)
    requires
        0 <= off,
        off + 8 <= b.len(),
    ensures
        bytes::u64_at(bytes::patched(b, off, bytes::le64(v)), off) == v,
        bytes::patched(b, off, bytes::le64(v)).len() == b.len(),
        forall|k: int|
            0 <= k < b.len() && !(off <= k < off + 8) ==> #[trigger] bytes::patched(
                b,
                off,
                bytes::le64(v),
            )[k] == b[k],
{
    reveal(bytes::u32_at);
    reveal(bytes::u64_at);
    bytes::lemma_le64_round_trip(v);
    let c = bytes::patched(b, off, bytes::le64(v));
    bytes::lemma_patched_len(b, off, bytes::le64(v));
    assert forall|k: int| 0 <= k < 8 implies c[off + k] == #[trigger] bytes::le64(v)[k] by {}
    assert(bytes::u32_at(c, off) == bytes::u32_at(bytes::le64(v), 0));
    assert(bytes::u32_at(c, off + 4) == bytes::u32_at(bytes::le64(v), 4));
}

/// Applying one absolute relocation stores the referenced address in its
/// eight bytes, as an offset from the start of the thread-local data for a
/// thread-local target, and changes nothing else. An imported target's bytes
/// stay for the loader.
pub proof fn lemma_absolute_applied(x: ResolvedReloc, base: u64, tls: u64, b: Seq<u8>)
    requires
        x.rel.r_type == 0,
        x.rel.offset + 8 <= b.len(),
    ensures
        Arm64::applied(seq![x], base, tls, b) matches Ok(c) && c.len() == b.len() && (
        x.is_imported ==> c == b) && (!x.is_imported ==> bytes::u64_at(c, x.rel.offset as int) == (
        referenced(x) - if x.is_tls {
            tls as int
        } else {
            0
        }) % 0x1_0000_0000_0000_0000) && forall|k: int|
            0 <= k < b.len() && !(x.rel.offset <= k < x.rel.offset + 8) ==> #[trigger] c[k] == b[k],
{
    reveal(arm64::apply_one);
    reveal(bytes::word64);
    let rels = seq![x];
    let off = x.rel.offset as int;
    let sa = bytes::word64(x.s + x.rel.addend);
    lemma_patched_quad(b, off, sa);
    lemma_patched_quad(b, off, bytes::word64(sa - tls));
    let next = match arm64::apply_one(rels, 0, base, tls, b) {
        Ok((n, _)) => n,
        Err(_) => b,
    };
    assert(arm64::apply_from(rels, 1, base, tls, next) == Ok::<Seq<u8>, super::ApplyError>(next));
}

/// Applying a subtraction and the absolute relocation behind it stores the
/// distance from the first symbol to the second address, in four or eight
/// bytes, and changes nothing else.
pub proof fn lemma_difference_applied(
    x: ResolvedReloc,
    y: ResolvedReloc,
    base: u64,
    tls: u64,
    b: Seq<u8>,
)
    requires
        x.rel.r_type == 1,
        x.rel.size == 4 || x.rel.size == 8,
        x.rel.offset + x.rel.size <= b.len(),
        y.rel.r_type == 0,
    ensures
        Arm64::applied(seq![x, y], base, tls, b) matches Ok(c) && c.len() == b.len() && (x.rel.size
            == 8 ==> bytes::u64_at(c, x.rel.offset as int) == (referenced(y) - x.s)
            % 0x1_0000_0000_0000_0000) && (x.rel.size == 4 ==> bytes::u32_at(
            c,
            x.rel.offset as int,
        ) == (referenced(y) - x.s) % 0x1_0000_0000) && forall|k: int|
            0 <= k < b.len() && !(x.rel.offset <= k < x.rel.offset + x.rel.size)
                ==> #[trigger] c[k] == b[k],
{
    reveal(arm64::apply_one);
    let rels = seq![x, y];
    let off = x.rel.offset as int;
    let d = bytes::word64(y.s + y.rel.addend) - x.s;
    let val = bytes::word64(d);
    bytes::lemma_word32_word64(d);
    if x.rel.size == 8 {
        lemma_patched_quad(b, off, val);
    } else {
        lemma_patched_word(b, off, bytes::word32(val as int));
    }
    let next = match arm64::apply_one(rels, 0, base, tls, b) {
        Ok((n, _)) => n,
        Err(_) => b,
    };
    assert(arm64::apply_from(rels, 2, base, tls, next) == Ok::<Seq<u8>, super::ApplyError>(next));
    assert(Arm64::applied(rels, base, tls, b) == Ok::<Seq<u8>, super::ApplyError>(next));
    reveal(bytes::word64);
    reveal(bytes::word32);
}

/// Applying one relocation of an instruction replaces its four bytes by the
/// relocated instruction, as seen from its place in the output, and changes
/// nothing else.
#[verifier::spinoff_prover]
#[verifier::rlimit(60)]
pub proof fn lemma_instruction_applied(x: ResolvedReloc, base: u64, tls: u64, b: Seq<u8>)
    requires
        2 <= x.rel.r_type <= 9,
        x.rel.offset + 4 <= b.len(),
        base + x.rel.offset <= u64::MAX,
    ensures
        ({
            let p = (base + x.rel.offset) as u64;
            let insn = bytes::u32_at(b, x.rel.offset as int);
            match Arm64::applied(seq![x], base, tls, b) {
                Ok(c) => {
                    &&& arm64::relocated_insn(x, insn, p) == Ok::<u32, super::ApplyError>(
                        bytes::u32_at(c, x.rel.offset as int),
                    )
                    &&& c.len() == b.len()
                    &&& forall|k: int|
                        0 <= k < b.len() && !(x.rel.offset <= k < x.rel.offset + 4)
                            ==> #[trigger] c[k] == b[k]
                },
                Err(e) => arm64::relocated_insn(x, insn, p) == Err::<u32, super::ApplyError>(e),
            }
        }),
{
    reveal(arm64::apply_one);
    let rels = seq![x];
    let off = x.rel.offset as int;
    let p = (base + x.rel.offset) as u64;
    assert(bytes::word64(base + x.rel.offset) == p) by {
        reveal(bytes::word64);
    }
    let insn = bytes::u32_at(b, off);
    match arm64::relocated_insn(x, insn, p) {
        Ok(w) => {
            lemma_patched_word(b, off, w);
            let next = bytes::patched(b, off, bytes::le32(w));
            assert(arm64::apply_from(rels, 1, base, tls, next) == Ok::<
                Seq<u8>,
                super::ApplyError,
            >(next));
        },
        Err(_) => {},
    }
}

/// True when two words are an ADRP of one register and an access through
/// that register that together reach `target`.
pub open spec fn reaches(at: int, adrp: u32, access: u32, target: int) -> bool {
    &&& adrp & 0x9f00_0000 == 0x9000_0000
    &&& (access >> 5u32) & 0x1f == adrp & 0x1f
    &&& page_start(at) + adrp_distance(adrp) + imm12(access) * step_of(access) == target
}

proof fn lemma_adrp_reaches(reg: u32, at: u64, target: u64)
    requires
        reg < 32,
        -0x1_0000_0000 <= page_start(target as int) - page_start(at as int) < 0x1_0000_0000,
    ensures
        ({
            let w = (0x9000_0000u32 | reg) | arm64::adrp_imm(target, at);
            &&& w & 0x9f00_0000 == 0x9000_0000
            &&& w & 0x1f == reg
            &&& page_start(at as int) + adrp_distance(w) == page_start(target as int)
        }),
{
    let insn = 0x9000_0000u32 | reg;
    let w = insn | arm64::adrp_imm(target, at);
    assert(insn & 0x60ff_ffe0 == 0) by (bit_vector)
        requires
            reg < 32,
            insn == 0x9000_0000u32 | reg,
    ;
    lemma_arm64_adrp(insn, target, at);
    assert(w & 0x9f00_0000 == 0x9000_0000 && w & 0x1f == reg) by (bit_vector)
        requires
            reg < 32,
            insn == 0x9000_0000u32 | reg,
            w & 0x9f00_001f == insn,
    ;
}

proof fn lemma_load_bits(insn: u32, g: u32)
    requires
        insn == 0xf940_0210 || insn == 0xf940_0021,
        g < 512,
    ensures
        ({
            let w = insn | (g << 10u32);
            &&& w & 0xffc0_03ff == insn
            &&& (w >> 10u32) & 0xfff == g
            &&& (w >> 5u32) & 0x1f == (insn >> 5u32) & 0x1f
            &&& w >> 30u32 == 3
            &&& w & 0x3b00_0000 == 0x3900_0000
        }),
{
    let w = insn | (g << 10u32);
    assert(w & 0xffc0_03ff == insn && (w >> 10u32) & 0xfff == g && (w >> 5u32) & 0x1f == (insn
        >> 5u32) & 0x1f && w >> 30u32 == 3 && w & 0x3b00_0000 == 0x3900_0000) by (bit_vector)
        requires
            insn == 0xf940_0210 || insn == 0xf940_0021,
            g < 512,
            w == insn | (g << 10u32),
    ;
}

/// A stub loads its slot into register 16 (the load's immediate counts in
/// eight bytes) and jumps to what it loaded.
pub proof fn lemma_stub_jumps(addr: u64, slot: u64)
    requires
        slot % 8 == 0,
        -0x1_0000_0000 <= page_start(slot as int) - page_start(addr as int) < 0x1_0000_0000,
    ensures
        ({
            let code = Arm64::stub(addr, slot);
            let load = bytes::u32_at(code, 4);
            &&& code.len() == 12
            &&& reaches(addr as int, bytes::u32_at(code, 0), load, slot as int)
            &&& load & 0xffc0_001f == 0xf940_0010
            &&& bytes::u32_at(code, 8) == 0xd61f_0200
        }),
{
    let a = 0x9000_0010u32 | arm64::adrp_imm(slot, addr);
    let g = arm64::field(slot, 11, 3) as u32;
    let l = 0xf940_0210u32 | (g << 10u32);
    let ws = seq![a, l, 0xd61f_0200u32];
    bytes::lemma_le32s_at(ws, 0);
    bytes::lemma_le32s_at(ws, 1);
    bytes::lemma_le32s_at(ws, 2);
    lemma_fields(slot);
    lemma_scaled(slot, 3, 8);
    lemma_load_bits(0xf940_0210, g);
    assert(0x9000_0010u32 == 0x9000_0000u32 | 16 && (0xf940_0210u32 >> 5u32) & 0x1f == 16) by (
    bit_vector);
    assert(l & 0xffc0_001f == 0xf940_0010) by (bit_vector)
        requires
            l & 0xffc0_03ff == 0xf940_0210,
    ;
    lemma_adrp_reaches(16, addr, slot);
}

/// An Objective-C stub loads the selector into register 1 and the slot of
/// the message function into register 16, and jumps to what it loaded there.
pub proof fn lemma_objc_stub_jumps(addr: u64, selref: u64, msgsend: u64)
    requires
        selref % 8 == 0,
        msgsend % 8 == 0,
        addr + 8 <= u64::MAX,
        -0x1_0000_0000 <= page_start(selref as int) - page_start(addr as int) < 0x1_0000_0000,
        -0x1_0000_0000 <= page_start(msgsend as int) - page_start(addr + 8) < 0x1_0000_0000,
    ensures
        ({
            let code = Arm64::objc_stub(addr, selref, msgsend);
            let first = bytes::u32_at(code, 4);
            let second = bytes::u32_at(code, 12);
            &&& code.len() == 32
            &&& reaches(addr as int, bytes::u32_at(code, 0), first, selref as int)
            &&& first & 0xffc0_001f == 0xf940_0001
            &&& reaches(addr + 8, bytes::u32_at(code, 8), second, msgsend as int)
            &&& second & 0xffc0_001f == 0xf940_0010
            &&& bytes::u32_at(code, 16) == 0xd61f_0200
        }),
{
    let q = (addr + 8) as u64;
    assert(bytes::word64(addr + 8) == q) by {
        reveal(bytes::word64);
    }
    let a = 0x9000_0001u32 | arm64::adrp_imm(selref, addr);
    let g = arm64::field(selref, 11, 3) as u32;
    let l = 0xf940_0021u32 | (g << 10u32);
    let c = 0x9000_0010u32 | arm64::adrp_imm(msgsend, q);
    let h = arm64::field(msgsend, 11, 3) as u32;
    let m = 0xf940_0210u32 | (h << 10u32);
    let ws = seq![a, l, c, m, 0xd61f_0200u32, 0xd420_0020u32, 0xd420_0020u32, 0xd420_0020u32];
    bytes::lemma_le32s_at(ws, 0);
    bytes::lemma_le32s_at(ws, 1);
    bytes::lemma_le32s_at(ws, 2);
    bytes::lemma_le32s_at(ws, 3);
    bytes::lemma_le32s_at(ws, 4);
    lemma_fields(selref);
    lemma_fields(msgsend);
    lemma_scaled(selref, 3, 8);
    lemma_scaled(msgsend, 3, 8);
    lemma_load_bits(0xf940_0021, g);
    lemma_load_bits(0xf940_0210, h);
    assert(0x9000_0010u32 == 0x9000_0000u32 | 16 && (0xf940_0210u32 >> 5u32) & 0x1f == 16
        && 0x9000_0001u32 == 0x9000_0000u32 | 1 && (0xf940_0021u32 >> 5u32) & 0x1f == 1) by (
    bit_vector);
    assert(l & 0xffc0_001f == 0xf940_0001 && m & 0xffc0_001f == 0xf940_0010) by (bit_vector)
        requires
            l & 0xffc0_03ff == 0xf940_0021,
            m & 0xffc0_03ff == 0xf940_0210,
    ;
    lemma_adrp_reaches(1, addr, selref);
    lemma_adrp_reaches(16, q, msgsend);
}

/// A thunk computes its target's address in register 16 and jumps there.
pub proof fn lemma_thunk_jumps(addr: u64, target: u64)
    requires
        -0x1_0000_0000 <= page_start(target as int) - page_start(addr as int) < 0x1_0000_0000,
    ensures
        ({
            let code = Arm64::thunk(addr, target);
            let sum = bytes::u32_at(code, 4);
            &&& code.len() == 12
            &&& reaches(addr as int, bytes::u32_at(code, 0), sum, target as int)
            &&& sum & 0xffc0_001f == 0x9100_0010
            &&& bytes::u32_at(code, 8) == 0xd61f_0200
        }),
{
    let a = 0x9000_0010u32 | arm64::adrp_imm(target, addr);
    let g = arm64::field(target, 11, 0) as u32;
    let s = 0x9100_0210u32 | (g << 10u32);
    let ws = seq![a, s, 0xd61f_0200u32];
    bytes::lemma_le32s_at(ws, 0);
    bytes::lemma_le32s_at(ws, 1);
    bytes::lemma_le32s_at(ws, 2);
    lemma_scaled(target, 0, 1);
    assert((s >> 10u32) & 0xfff == g && (s >> 5u32) & 0x1f == 16 && s & 0xffc0_001f == 0x9100_0010
        && s & 0x3b00_0000 != 0x3900_0000 && 0x9000_0010u32 == 0x9000_0000u32 | 16) by (bit_vector)
        requires
            g < 4096,
            s == 0x9100_0210u32 | (g << 10u32),
    ;
    lemma_adrp_reaches(16, addr, target);
}

} // verus!
