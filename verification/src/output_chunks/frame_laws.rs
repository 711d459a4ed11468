//! What an unwinder finds in __eh_frame. Each cell counts from its own
//! address, and an FDE's second word leads back to its CIE.
use super::eh_frame::{cie_bytes, fde_base, fde_bytes, from_cell, got_or_zero};
use crate::context::Context;
use crate::input_files::{Cie, Fde};
use crate::util::bytes;
use vstd::prelude::*;

verus! {

proof fn lemma_word_put(b: Seq<u8>, off: int, v: u32, other: int)
    requires
        0 <= off,
        off + 4 <= b.len(),
    ensures
        ({
            let c = bytes::patched(b, off, bytes::le32(v));
            &&& c.len() == b.len()
            &&& bytes::u32_at(c, off) == v
            &&& 0 <= other && (other + 4 <= off || off + 4 <= other) && other + 4 <= b.len()
                ==> bytes::u32_at(c, other) == bytes::u32_at(b, other)
            &&& 0 <= other && (other + 8 <= off || off + 4 <= other) && other + 8 <= b.len()
                ==> bytes::u64_at(c, other) == bytes::u64_at(b, other)
        }),
{
    reveal(bytes::u32_at);
    reveal(bytes::u64_at);
    bytes::lemma_patched_len(b, off, bytes::le32(v));
    bytes::lemma_le32_round_trip(v);
}

proof fn lemma_quad_put(b: Seq<u8>, off: int, v: u64, other: int)
    requires
        0 <= off,
        off + 8 <= b.len(),
    ensures
        ({
            let c = bytes::patched(b, off, bytes::le64(v));
            &&& c.len() == b.len()
            &&& bytes::u64_at(c, off) == v
            &&& 0 <= other && (other + 4 <= off || off + 8 <= other) && other + 4 <= b.len()
                ==> bytes::u32_at(c, other) == bytes::u32_at(b, other)
            &&& 0 <= other && (other + 8 <= off || off + 8 <= other) && other + 8 <= b.len()
                ==> bytes::u64_at(c, other) == bytes::u64_at(b, other)
        }),
{
    reveal(bytes::u32_at);
    reveal(bytes::u64_at);
    bytes::lemma_le64_round_trip(v);
    let c = bytes::patched(b, off, bytes::le64(v));
    bytes::lemma_patched_len(b, off, bytes::le64(v));
    assert forall|k: int| 0 <= k < 8 implies c[off + k] == #[trigger] bytes::le64(v)[k] by {}
    assert(bytes::u32_at(c, off) == bytes::u32_at(bytes::le64(v), 0));
    assert(bytes::u32_at(c, off + 4) == bytes::u32_at(bytes::le64(v), 4));
}

/// True when a cell of eight bytes counts from `here` to `target`.
#[verifier::opaque]
pub open spec fn counts_to(here: int, v: u64, target: int) -> bool {
    (here + v) % 0x1_0000_0000_0000_0000 == target
}

proof fn lemma_cell(target: u64, addr: u64, at: u32, cell: int)
    requires
        0 <= cell,
        addr + at + cell <= u64::MAX,
    ensures
        counts_to(addr + at + cell, from_cell(target, addr, at, cell), target as int),
        -0x8000_0000 <= target - (addr + at + cell) < 0x8000_0000 ==> addr + at + cell
            + bytes::signed32(bytes::word32(from_cell(target, addr, at, cell) as int)) == target,
{
    let here = addr + at + cell;
    assert(bytes::word64(at + cell) == at + cell && bytes::word64(addr + (at + cell)) == here) by {
        reveal(bytes::word64);
    }
    let d = target - here;
    assert(from_cell(target, addr, at, cell) == bytes::word64(d));
    bytes::lemma_word32_word64(d);
    reveal(bytes::word64);
    reveal(bytes::word32);
    reveal(counts_to);
}

/// An FDE leads back to its CIE and forward to its function: the word at 4
/// is the distance from itself back to the CIE, and the cell at 8 counts
/// from itself to the function.
pub proof fn lemma_fde_reads_back(ctx: Context, addr: u64, f: Fde)
    requires
        f.data.len() >= 16,
        ctx.inputs.cies[f.cie as int].output_offset <= f.output_offset,
        f.output_offset + 8 <= u32::MAX,
        addr + f.output_offset + 8 <= u64::MAX,
        ctx.addr_of_isec(f.isec as int) + f.func_offset <= u64::MAX,
    ensures
        ({
            let d = fde_base(ctx, addr, f);
            &&& d.len() == f.data.len()
            &&& f.output_offset + 4 - bytes::u32_at(d, 4)
                == ctx.inputs.cies[f.cie as int].output_offset
            &&& counts_to(
                addr + f.output_offset + 8,
                bytes::u64_at(d, 8),
                ctx.addr_of_isec(f.isec as int) + f.func_offset,
            )
            &&& f.lsda is None ==> fde_bytes(ctx, addr, f) == Some(d)
        }),
{
    let cie = ctx.inputs.cies[f.cie as int];
    let func = (ctx.addr_of_isec(f.isec as int) + f.func_offset) as u64;
    assert(bytes::word64(ctx.addr_of_isec(f.isec as int) + f.func_offset) == func) by {
        reveal(bytes::word64);
    }
    let back = f.output_offset + 4 - cie.output_offset;
    let w = bytes::word32(
        bytes::word64((f.output_offset + 4) as u64 - cie.output_offset as u64) as int,
    );
    assert(w == back) by {
        reveal(bytes::word64);
        reveal(bytes::word32);
    }
    let v = from_cell(func, addr, f.output_offset, 8);
    lemma_cell(func, addr, f.output_offset, 8);
    lemma_word_put(f.data@, 4, w, 8);
    let b = bytes::patched(f.data@, 4, bytes::le32(w));
    lemma_quad_put(b, 8, v, 4);
}

/// The cell of an FDE's language-specific data counts from itself to the
/// data, and the rest of the FDE is as without it.
pub proof fn lemma_lsda_reads_back(ctx: Context, addr: u64, f: Fde, k: int)
    requires
        f.data.len() >= 16,
        f.lsda is Some,
        crate::relocatable::extras::leb_last(f.data@, 24) == Some(k),
        k >= 16,
        addr + f.output_offset + k + 1 <= u64::MAX,
        ({
            let size = ctx.inputs.cies[f.cie as int].lsda_size;
            (size == 4 || size == 8) && k + 1 + size <= f.data.len()
        }),
        ({
            let l = f.lsda->0;
            let target = ctx.addr_of_isec(l.0 as int) + l.1;
            target <= u64::MAX && -0x8000_0000 <= target - (addr + f.output_offset + k + 1)
                < 0x8000_0000
        }),
    ensures
        ({
            let l = f.lsda->0;
            let target = ctx.addr_of_isec(l.0 as int) + l.1;
            let here = addr + f.output_offset + k + 1;
            fde_bytes(ctx, addr, f) matches Some(d) && d.len() == f.data.len() && bytes::u32_at(d, 4)
                == bytes::u32_at(fde_base(ctx, addr, f), 4) && bytes::u64_at(d, 8) == bytes::u64_at(
                fde_base(ctx, addr, f),
                8,
            ) && if ctx.inputs.cies[f.cie as int].lsda_size == 4 {
                here + bytes::signed32(bytes::u32_at(d, k + 1)) == target
            } else {
                counts_to(here, bytes::u64_at(d, k + 1), target)
            }
        }),
{
    let l = f.lsda->0;
    let target = (ctx.addr_of_isec(l.0 as int) + l.1) as u64;
    assert(bytes::word64(ctx.addr_of_isec(l.0 as int) + l.1) == target) by {
        reveal(bytes::word64);
    }
    let cie = ctx.inputs.cies[f.cie as int];
    let w = bytes::word32(
        bytes::word64((f.output_offset + 4) as u64 - cie.output_offset as u64) as int,
    );
    lemma_word_put(f.data@, 4, w, 8);
    let b = bytes::patched(f.data@, 4, bytes::le32(w));
    let func = bytes::word64(ctx.addr_of_isec(f.isec as int) + f.func_offset);
    lemma_quad_put(b, 8, from_cell(func, addr, f.output_offset, 8), 4);
    let base = fde_base(ctx, addr, f);
    let val = from_cell(target, addr, f.output_offset, k + 1);
    lemma_cell(target, addr, f.output_offset, k + 1);
    if cie.lsda_size == 4 {
        lemma_word_put(base, k + 1, bytes::word32(val as int), 4);
        lemma_word_put(base, k + 1, bytes::word32(val as int), 8);
    } else {
        lemma_quad_put(base, k + 1, val, 4);
        lemma_quad_put(base, k + 1, val, 8);
    }
}

/// The personality cell of a CIE counts from itself to the slot that holds
/// the personality function's address.
pub proof fn lemma_personality_reads_back(ctx: Context, addr: u64, c: Cie)
    requires
        c.personality is Some,
        c.personality_offset + 4 <= c.data.len(),
        addr + c.output_offset + c.personality_offset <= u64::MAX,
        -0x8000_0000 <= got_or_zero(ctx, c.personality->0 as int) - (addr + c.output_offset
            + c.personality_offset) < 0x8000_0000,
    ensures
        cie_bytes(ctx, addr, c) matches Some(d) && d.len() == c.data.len() && addr + c.output_offset
            + c.personality_offset + bytes::signed32(
            bytes::u32_at(d, c.personality_offset as int),
        ) == got_or_zero(ctx, c.personality->0 as int),
{
    let slot = got_or_zero(ctx, c.personality->0 as int);
    let at = c.personality_offset as int;
    let v = from_cell(slot, addr, c.output_offset, at);
    lemma_cell(slot, addr, c.output_offset, at);
    lemma_word_put(c.data@, at, bytes::word32(v as int), at);
}

} // verus!
