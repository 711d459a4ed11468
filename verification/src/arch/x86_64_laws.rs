//! What an x86-64 processor makes of relocated instructions and of the code
//! that the linker writes. A displacement counts from the end of its
//! instruction.
use super::x86_64::{self, X86_64};
use super::{ApplyError, Arch, ResolvedReloc};
use crate::util::bytes;
use vstd::prelude::*;

verus! {

/// How many bytes of the instruction follow the field: types 6, 7 and 8 say
/// 1, 2 and 4, and the others none.
pub open spec fn bytes_behind(r_type: u8) -> int {
    if r_type == 6 {
        1
    } else if r_type == 7 {
        2
    } else if r_type == 8 {
        4
    } else {
        0
    }
}

/// The address that a relocation refers to: the symbol's GOT slot for types
/// 3 and 4, its thread-local pointer for type 9, and the symbol itself for
/// the others and for a relaxed load, each with the addend, modulo 2^64.
pub open spec fn referenced(x: ResolvedReloc, relaxed: bool) -> int {
    let base = if relaxed && (x.rel.r_type == 3 || x.rel.r_type == 9) {
        x.s
    } else if x.rel.r_type == 3 || x.rel.r_type == 4 {
        x.got
    } else if x.rel.r_type == 9 {
        x.tlv_ptr
    } else {
        x.s
    };
    (base + x.rel.addend) % 0x1_0000_0000_0000_0000
}

/// True for a relocation of a displacement.
pub open spec fn is_displacement(r_type: u8) -> bool {
    1 <= r_type <= 4 || 6 <= r_type <= 9
}

/// The address that a displacement at `p` reaches.
pub open spec fn reached(p: int, r_type: u8, w: u32) -> int {
    p + 4 + bytes_behind(r_type) + bytes::signed32(w)
}

proof fn lemma_low(d: int)
    requires
        -0x8000_0000 <= d < 0x8000_0000,
    ensures
        bytes::signed32(bytes::word32(bytes::word64(d) as int)) == d,
{
    bytes::lemma_word32_word64(d);
    reveal(bytes::word32);
}

/// A relocated displacement reaches the referenced address, if that is less
/// than 2 GiB away, whatever stands behind the field in its instruction.
pub proof fn lemma_displacement_reaches(x: ResolvedReloc, relaxed: bool, p: u64)
    requires
        is_displacement(x.rel.r_type),
        x.is_sym || !(x.rel.r_type == 3 || x.rel.r_type == 4 || x.rel.r_type == 9),
        p + 8 <= u64::MAX,
        -0x8000_0000 <= referenced(x, relaxed) - (p + 4 + bytes_behind(x.rel.r_type)) < 0x8000_0000,
    ensures
        x86_64::relocated_word(x, relaxed, p) matches Ok(w) && reached(p as int, x.rel.r_type, w)
            == referenced(x, relaxed),
{
    let next = p + 4;
    assert(bytes::word64(next) == next) by {
        reveal(bytes::word64);
    }
    let t = referenced(x, relaxed);
    let k = bytes_behind(x.rel.r_type);
    assert(bytes::word64(x.s + x.rel.addend) == (x.s + x.rel.addend) % 0x1_0000_0000_0000_0000
        && bytes::word64(x.got + x.rel.addend) == (x.got + x.rel.addend) % 0x1_0000_0000_0000_0000
        && bytes::word64(x.tlv_ptr + x.rel.addend) == (x.tlv_ptr + x.rel.addend)
        % 0x1_0000_0000_0000_0000) by {
        reveal(bytes::word64);
    }
    bytes::lemma_word64_sum(t - next, -k);
    assert(bytes::word64(bytes::word64(t - next) - k) == bytes::word64(t - next - k));
    lemma_low(t - next - k);
    if k == 0 {
        lemma_low(t - next);
    }
}

/// A displacement is refused only for want of a slot: when it goes through
/// one, and its target is no symbol.
pub proof fn lemma_refused(x: ResolvedReloc, relaxed: bool, p: u64)
    requires
        is_displacement(x.rel.r_type),
        !relaxed,
    ensures
        x86_64::relocated_word(x, relaxed, p) is Err <==> !x.is_sym && (x.rel.r_type == 3
            || x.rel.r_type == 4 || x.rel.r_type == 9),
{
}

proof fn lemma_patched_word(b: Seq<u8>, off: int, v: u32)
    requires
        0 <= off,
        off + 4 <= b.len(),
    ensures
        bytes::u32_at(bytes::patched(b, off, bytes::le32(v)), off) == v,
        bytes::patched(b, off, bytes::le32(v)).len() == b.len(),
        forall|k: int|
            0 <= k < b.len() && !(off <= k < off + 4) ==> #[trigger] bytes::patched(
                b,
                off,
                bytes::le32(v),
            )[k] == b[k],
{
    reveal(bytes::u32_at);
    bytes::lemma_patched_len(b, off, bytes::le32(v));
    bytes::lemma_le32_round_trip(v);
}

proof fn lemma_patched_quad(b: Seq<u8>, off: int, v: u64)
    requires
        0 <= off,
        off + 8 <= b.len(),
    ensures
        bytes::u64_at(bytes::patched(b, off, bytes::le64(v)), off) == v,
        bytes::patched(b, off, bytes::le64(v)).len() == b.len(),
        forall|k: int|
            0 <= k < b.len() && !(off <= k < off + 8) ==> #[trigger] bytes::patched(
                b,
                off,
                bytes::le64(v),
            )[k] == b[k],
{
    reveal(bytes::u32_at);
    reveal(bytes::u64_at);
    bytes::lemma_le64_round_trip(v);
    let c = bytes::patched(b, off, bytes::le64(v));
    bytes::lemma_patched_len(b, off, bytes::le64(v));
    assert forall|k: int| 0 <= k < 8 implies c[off + k] == #[trigger] bytes::le64(v)[k] by {}
    assert(bytes::u32_at(c, off) == bytes::u32_at(bytes::le64(v), 0));
    assert(bytes::u32_at(c, off + 4) == bytes::u32_at(bytes::le64(v), 4));
}

proof fn lemma_one_applied(x: ResolvedReloc, base: u64, tls: u64, b: Seq<u8>)
    requires
        x.rel.r_type != 5,
    ensures
        X86_64::applied(seq![x], base, tls, b) == match x86_64::apply_one(
            seq![x],
            0,
            base,
            tls,
            b,
        ) {
            Ok((c, _)) => Ok::<Seq<u8>, ApplyError>(c),
            Err(e) => Err(e),
        },
{
    reveal(x86_64::apply_one);
    let rels = seq![x];
    match x86_64::apply_one(rels, 0, base, tls, b) {
        Ok((c, j)) => {
            assert(j == 1);
            assert(x86_64::apply_from(rels, 1, base, tls, c) == Ok::<Seq<u8>, ApplyError>(c));
        },
        Err(_) => {},
    }
}

/// Applying one absolute relocation stores the referenced address in its
/// eight bytes, as an offset from the start of the thread-local data for a
/// thread-local target, and changes nothing else. An imported target's bytes
/// stay for the loader.
pub proof fn lemma_absolute_applied(x: ResolvedReloc, base: u64, tls: u64, b: Seq<u8>)
    requires
        x.rel.r_type == 0,
        x.rel.offset + 8 <= b.len(),
    ensures
        X86_64::applied(seq![x], base, tls, b) matches Ok(c) && c.len() == b.len() && (
        x.is_imported ==> c == b) && (!x.is_imported ==> bytes::u64_at(c, x.rel.offset as int) == (
        referenced(x, false) - if x.is_tls {
            tls as int
        } else {
            0
        }) % 0x1_0000_0000_0000_0000) && forall|k: int|
            0 <= k < b.len() && !(x.rel.offset <= k < x.rel.offset + 8) ==> #[trigger] c[k] == b[k],
{
    lemma_one_applied(x, base, tls, b);
    reveal(x86_64::apply_one);
    reveal(bytes::word64);
    let off = x.rel.offset as int;
    let sa = bytes::word64(x.s + x.rel.addend);
    lemma_patched_quad(b, off, sa);
    lemma_patched_quad(b, off, bytes::word64(sa - tls));
}

/// Applying a subtraction and the absolute relocation behind it stores the
/// distance from the first symbol to the second address, in four or eight
/// bytes, and changes nothing else.
pub proof fn lemma_difference_applied(
    x: ResolvedReloc,
    y: ResolvedReloc,
    base: u64,
    tls: u64,
    b: Seq<u8>,
)
    requires
        x.rel.r_type == 5,
        x.rel.size == 4 || x.rel.size == 8,
        x.rel.offset + x.rel.size <= b.len(),
        y.rel.r_type == 0,
    ensures
        X86_64::applied(seq![x, y], base, tls, b) matches Ok(c) && c.len() == b.len() && (x.rel.size
            == 8 ==> bytes::u64_at(c, x.rel.offset as int) == (referenced(y, false) - x.s)
            % 0x1_0000_0000_0000_0000) && (x.rel.size == 4 ==> bytes::u32_at(
            c,
            x.rel.offset as int,
        ) == (referenced(y, false) - x.s) % 0x1_0000_0000) && forall|k: int|
            0 <= k < b.len() && !(x.rel.offset <= k < x.rel.offset + x.rel.size)
                ==> #[trigger] c[k] == b[k],
{
    reveal(x86_64::apply_one);
    let rels = seq![x, y];
    let off = x.rel.offset as int;
    let d = bytes::word64(y.s + y.rel.addend) - x.s;
    let val = bytes::word64(d);
    bytes::lemma_word32_word64(d);
    if x.rel.size == 8 {
        lemma_patched_quad(b, off, val);
    } else {
        lemma_patched_word(b, off, bytes::word32(val as int));
    }
    let next = match x86_64::apply_one(rels, 0, base, tls, b) {
        Ok((n, _)) => n,
        Err(_) => b,
    };
    assert(x86_64::apply_from(rels, 2, base, tls, next) == Ok::<Seq<u8>, ApplyError>(next));
    assert(X86_64::applied(rels, base, tls, b) == Ok::<Seq<u8>, ApplyError>(next));
    reveal(bytes::word64);
    reveal(bytes::word32);
}

/// True for a load through a slot that becomes an address computation: a
/// `movq`, whose opcode 0x8b stands two bytes before the field, of a symbol
/// of this output.
pub open spec fn is_relaxed(x: ResolvedReloc, b: Seq<u8>) -> bool {
    &&& x.rel.r_type == 3 || x.rel.r_type == 9
    &&& x.is_sym && !x.is_imported
    &&& x.rel.offset >= 2
    &&& b[x.rel.offset - 2] == 0x8b
}

/// Applying one relocation of a displacement replaces its four bytes, as
/// seen from its place in the output. A load that need not go through its
/// slot becomes a `leaq` (0x8d). Nothing else changes.
pub proof fn lemma_displacement_applied(x: ResolvedReloc, base: u64, tls: u64, b: Seq<u8>)
    requires
        is_displacement(x.rel.r_type),
        x.is_sym || !(x.rel.r_type == 3 || x.rel.r_type == 4 || x.rel.r_type == 9),
        x.rel.offset + 4 <= b.len(),
        base + x.rel.offset + 8 <= u64::MAX,
        -0x8000_0000 <= referenced(x, is_relaxed(x, b)) - (base + x.rel.offset + 4 + bytes_behind(
            x.rel.r_type,
        )) < 0x8000_0000,
    ensures
        X86_64::applied(seq![x], base, tls, b) matches Ok(c) && c.len() == b.len() && reached(
            base + x.rel.offset,
            x.rel.r_type,
            bytes::u32_at(c, x.rel.offset as int),
        ) == referenced(x, is_relaxed(x, b)) && forall|k: int|
            0 <= k < b.len() && !(x.rel.offset <= k < x.rel.offset + 4) ==> #[trigger] c[k] == if k
                == x.rel.offset - 2 && is_relaxed(x, b) {
                0x8d
            } else {
                b[k]
            },
{
    lemma_one_applied(x, base, tls, b);
    let off = x.rel.offset as int;
    let p = (base + x.rel.offset) as u64;
    assert(bytes::word64(base + x.rel.offset) == p) by {
        reveal(bytes::word64);
    }
    let relaxed = is_relaxed(x, b);
    lemma_displacement_reaches(x, relaxed, p);
    let w = x86_64::relocated_word(x, relaxed, p)->Ok_0;
    let b1 = if relaxed {
        b.update(off - 2, 0x8du8)
    } else {
        b
    };
    lemma_patched_word(b1, off, w);
    reveal(x86_64::apply_one);
    assert(x86_64::relaxes(x, b) == relaxed);
}

/// A stub jumps through its slot: `jmp *slot(%rip)`.
pub proof fn lemma_stub_jumps(addr: u64, slot: u64)
    requires
        addr + 6 <= u64::MAX,
        -0x8000_0000 <= slot - (addr + 6) < 0x8000_0000,
    ensures
        ({
            let code = X86_64::stub(addr, slot);
            &&& code.len() == 6
            &&& code[0] == 0xff && code[1] == 0x25
            &&& addr + 6 + bytes::signed32(bytes::u32_at(code, 2)) == slot
        }),
{
    assert(bytes::word64(addr + 6) == addr + 6) by {
        reveal(bytes::word64);
    }
    lemma_low(slot - (addr + 6));
    let w = bytes::word32(bytes::word64(slot - (addr + 6)) as int);
    bytes::lemma_le32_round_trip(w);
    reveal(bytes::u32_at);
    assert(bytes::u32_at(X86_64::stub(addr, slot), 2) == bytes::u32_at(bytes::le32(w), 0));
}

/// An Objective-C stub loads the selector, `movq sel(%rip), %rsi`, and jumps
/// through the slot of the message function, `jmp *slot(%rip)`.
pub proof fn lemma_objc_stub_jumps(addr: u64, selref: u64, msgsend: u64)
    requires
        addr + 13 <= u64::MAX,
        -0x8000_0000 <= selref - (addr + 7) < 0x8000_0000,
        -0x8000_0000 <= msgsend - (addr + 13) < 0x8000_0000,
    ensures
        ({
            let code = X86_64::objc_stub(addr, selref, msgsend);
            &&& code.len() == 16
            &&& code[0] == 0x48 && code[1] == 0x8b && code[2] == 0x35
            &&& addr + 7 + bytes::signed32(bytes::u32_at(code, 3)) == selref
            &&& code[7] == 0xff && code[8] == 0x25
            &&& addr + 13 + bytes::signed32(bytes::u32_at(code, 9)) == msgsend
        }),
{
    assert(bytes::word64(addr + 7) == addr + 7 && bytes::word64(addr + 13) == addr + 13) by {
        reveal(bytes::word64);
    }
    lemma_low(selref - (addr + 7));
    lemma_low(msgsend - (addr + 13));
    let v = bytes::word32(bytes::word64(selref - (addr + 7)) as int);
    let w = bytes::word32(bytes::word64(msgsend - (addr + 13)) as int);
    bytes::lemma_le32_round_trip(v);
    bytes::lemma_le32_round_trip(w);
    reveal(bytes::u32_at);
    let code = X86_64::objc_stub(addr, selref, msgsend);
    assert(bytes::u32_at(code, 3) == bytes::u32_at(bytes::le32(v), 0));
    assert(bytes::u32_at(code, 9) == bytes::u32_at(bytes::le32(w), 0));
}

} // verus!
