//! The bytes of __eh_frame.
use crate::context::Context;
use crate::input_files::{Cie, Fde};
use crate::relocatable::extras::find_leb_last;
use crate::symbol::NO_IDX;
use crate::util::bytes;
use vstd::prelude::*;

verus! {

/// The address of a symbol's __got slot, 0 without one.
pub open spec fn got_or_zero(ctx: Context, id: int) -> u64 {
    if ctx.slots_of(id).got != NO_IDX {
        ctx.addr_of_got(id)
    } else {
        0
    }
}

/// Finds the address of a symbol's __got slot.
pub fn find_got(ctx: &Context, id: u32) -> (r: u64)
    requires
        ctx.wf(),
        id < ctx.inputs.symtab.syms.len(),
    ensures
        r == got_or_zero(*ctx, id as int),
{
    if ctx.sym_aux(id).got != NO_IDX {
        ctx.sym_got_addr(id)
    } else {
        0
    }
}

/// The distance from a cell of a record to an address. The record stands
/// `at` bytes into a section at `addr`.
pub open spec fn from_cell(target: u64, addr: u64, at: u32, cell: int) -> u64 {
    bytes::word64(target - bytes::word64(addr + bytes::word64(at + cell)))
}

fn find_from_cell(target: u64, addr: u64, at: u32, cell: usize) -> (r: u64)
    ensures
        r == from_cell(target, addr, at, cell as int),
{
    bytes::distance(target, bytes::sum64(addr, bytes::sum64(at as u64, cell as u64)))
}

/// The bytes of a CIE in a section at `addr`: its personality cell holds the
/// distance to the personality function's __got slot. `None` when the cell
/// is outside.
pub open spec fn cie_bytes(ctx: Context, addr: u64, c: Cie) -> Option<Seq<u8>> {
    match c.personality {
        None => Some(c.data@),
        Some(p) => if c.personality_offset + 4 > c.data.len() {
            None
        } else {
            Some(
                bytes::patched(
                    c.data@,
                    c.personality_offset as int,
                    bytes::le32(
                        bytes::word32(
                            from_cell(
                                got_or_zero(ctx, p as int),
                                addr,
                                c.output_offset,
                                c.personality_offset as int,
                            ) as int,
                        ),
                    ),
                ),
            )
        },
    }
}

/// The bytes of an FDE with its distance to its CIE and to its function.
pub open spec fn fde_base(ctx: Context, addr: u64, f: Fde) -> Seq<u8> {
    let cie = ctx.inputs.cies[f.cie as int];
    let func = bytes::word64(ctx.addr_of_isec(f.isec as int) + f.func_offset);
    bytes::patched(
        bytes::patched(
            f.data@,
            4,
            bytes::le32(
                bytes::word32(
                    bytes::word64((f.output_offset + 4) as u64 - cie.output_offset as u64) as int,
                ),
            ),
        ),
        8,
        bytes::le64(from_cell(func, addr, f.output_offset, 8)),
    )
}

/// The bytes of an FDE in a section at `addr`. `None` when it is too short.
pub open spec fn fde_bytes(ctx: Context, addr: u64, f: Fde) -> Option<Seq<u8>> {
    if f.data.len() < 16 {
        None
    } else {
        let base = fde_base(ctx, addr, f);
        match f.lsda {
            None => Some(base),
            Some(l) => {
                let size = ctx.inputs.cies[f.cie as int].lsda_size;
                let target = bytes::word64(ctx.addr_of_isec(l.0 as int) + l.1);
                match crate::relocatable::extras::leb_last(f.data@, 24) {
                    Some(k) => {
                        let val = from_cell(target, addr, f.output_offset, k + 1);
                        if size == 4 && k + 5 <= f.data.len() {
                            Some(
                                bytes::patched(
                                    base,
                                    k + 1,
                                    bytes::le32(bytes::word32(val as int)),
                                ),
                            )
                        } else if size == 8 && k + 9 <= f.data.len() {
                            Some(bytes::patched(base, k + 1, bytes::le64(val)))
                        } else {
                            None
                        }
                    },
                    None => None,
                }
            },
        }
    }
}

fn build_cie(ctx: &Context, addr: u64, c: &Cie) -> (r: Option<Vec<u8>>)
    requires
        ctx.wf(),
        ctx.inputs.cie_ok(*c),
    ensures
        match r {
            Some(v) => cie_bytes(*ctx, addr, *c) == Some(v@),
            None => cie_bytes(*ctx, addr, *c) is None,
        },
{
    let mut d: Vec<u8> = bytes::to_vec(c.data.as_slice());
    match c.personality {
        None => Some(d),
        Some(p) => {
            if c.personality_offset as u64 + 4 > d.len() as u64 {
                return None;
            }
            let cell: usize = c.personality_offset as usize;
            let val: u64 = find_from_cell(find_got(ctx, p), addr, c.output_offset, cell);
            bytes::put32(&mut d, cell, bytes::low32(val));
            Some(d)
        },
    }
}

fn build_fde(ctx: &Context, addr: u64, f: &Fde) -> (r: Option<Vec<u8>>)
    requires
        ctx.wf(),
        ctx.inputs.fde_ok(*f),
    ensures
        match r {
            Some(v) => fde_bytes(*ctx, addr, *f) == Some(v@),
            None => fde_bytes(*ctx, addr, *f) is None,
        },
{
    if f.data.len() < 16 {
        return None;
    }
    let mut d: Vec<u8> = bytes::to_vec(f.data.as_slice());
    let cie: &Cie = &ctx.inputs.cies[f.cie];
    let back: u64 = bytes::distance(f.output_offset as u64 + 4, cie.output_offset as u64);
    bytes::put32(&mut d, 4, bytes::low32(back));
    let func: u64 = bytes::sum64(ctx.isec_addr(f.isec), f.func_offset as u64);
    bytes::put64(&mut d, 8, find_from_cell(func, addr, f.output_offset, 8));
    assert(d@ == fde_base(*ctx, addr, *f));
    match f.lsda {
        None => Some(d),
        Some(l) => {
            let size: u8 = cie.lsda_size;
            let target: u64 = bytes::sum64(ctx.isec_addr(l.0), l.1 as u64);
            match find_leb_last(&f.data, 24) {
                Some(k) => {
                    let room: usize = d.len() - k;
                    let val: u64 = find_from_cell(target, addr, f.output_offset, k + 1);
                    if size == 4 && room >= 5 {
                        bytes::put32(&mut d, k + 1, bytes::low32(val));
                        Some(d)
                    } else if size == 8 && room >= 9 {
                        bytes::put64(&mut d, k + 1, val);
                        Some(d)
                    } else {
                        None
                    }
                },
                None => None,
            }
        },
    }
}

/// A record written at its place. `None` when it does not fit.
pub open spec fn put_at(buf: Seq<u8>, off: int, b: Seq<u8>) -> Option<Seq<u8>> {
    if 0 <= off && off + b.len() <= buf.len() {
        Some(bytes::patched(buf, off, b))
    } else {
        None
    }
}

/// Writes bytes at a place, if they fit there.
pub fn write_at(buf: &mut Vec<u8>, off: u64, b: &[u8]) -> (r: bool)
    ensures
        r == (put_at(old(buf)@, off as int, b@) is Some),
        r ==> put_at(old(buf)@, off as int, b@) == Some(final(buf)@),
        final(buf).len() == old(buf).len(),
        !r ==> final(buf)@ == old(buf)@,
{
    if off as u128 + b.len() as u128 > buf.len() as u128 {
        return false;
    }
    bytes::patch(buf, off as usize, b);
    true
}

/// The section with the first `n` CIEs written, as far as they are in use.
pub open spec fn with_cies(ctx: Context, addr: u64, size: int, n: int) -> Option<Seq<u8>>
    decreases n,
{
    if n <= 0 {
        Some(bytes::zeros(size))
    } else {
        let c = ctx.inputs.cies[n - 1];
        match with_cies(ctx, addr, size, n - 1) {
            None => None,
            Some(buf) => if !c.is_alive {
                Some(buf)
            } else {
                match cie_bytes(ctx, addr, c) {
                    None => None,
                    Some(b) => put_at(buf, c.output_offset as int, b),
                }
            },
        }
    }
}

/// The section with all CIEs and the first `n` FDEs written.
pub open spec fn with_fdes(ctx: Context, addr: u64, size: int, n: int) -> Option<Seq<u8>>
    decreases n,
{
    if n <= 0 {
        with_cies(ctx, addr, size, ctx.inputs.cies.len() as int)
    } else {
        let f = ctx.inputs.fdes[n - 1];
        match with_fdes(ctx, addr, size, n - 1) {
            None => None,
            Some(buf) => match fde_bytes(ctx, addr, f) {
                None => None,
                Some(b) => put_at(buf, f.output_offset as int, b),
            },
        }
    }
}

/// The bytes of __eh_frame at `addr`. `None` when a record is cut short or
/// does not fit.
pub open spec fn eh_frame_bytes(ctx: Context, addr: u64, size: int) -> Option<Seq<u8>> {
    with_fdes(ctx, addr, size, ctx.inputs.fdes.len() as int)
}

proof fn lemma_cies_none(ctx: Context, addr: u64, size: int, a: int, b: int)
    requires
        0 <= a <= b,
        with_cies(ctx, addr, size, a) is None,
    ensures
        with_cies(ctx, addr, size, b) is None,
    decreases b - a,
{
    if a < b {
        lemma_cies_none(ctx, addr, size, a, b - 1);
    }
}

proof fn lemma_fdes_none(ctx: Context, addr: u64, size: int, a: int, b: int)
    requires
        0 <= a <= b,
        with_fdes(ctx, addr, size, a) is None,
    ensures
        with_fdes(ctx, addr, size, b) is None,
    decreases b - a,
{
    if a < b {
        lemma_fdes_none(ctx, addr, size, a, b - 1);
    }
}

fn write_cies(ctx: &Context, addr: u64, size: u32) -> (r: Option<Vec<u8>>)
    requires
        ctx.wf(),
    ensures
        match r {
            Some(v) => with_cies(*ctx, addr, size as int, ctx.inputs.cies.len() as int) == Some(v@),
            None => with_cies(*ctx, addr, size as int, ctx.inputs.cies.len() as int) is None,
        },
{
    let ghost end = ctx.inputs.cies.len() as int;
    let mut buf: Vec<u8> = Vec::new();
    bytes::push_zeros(&mut buf, size as usize);
    assert(buf@ =~= bytes::zeros(size as int));
    let mut n: usize = 0;
    while n < ctx.inputs.cies.len()
        invariant
            ctx.wf(),
            n <= ctx.inputs.cies.len(),
            end == ctx.inputs.cies.len(),
            with_cies(*ctx, addr, size as int, n as int) == Some(buf@),
        decreases ctx.inputs.cies.len() - n,
    {
        let c: &Cie = &ctx.inputs.cies[n];
        if c.is_alive {
            proof {
                assert(ctx.inputs.cie_ok(ctx.inputs.cies[n as int]));
            }
            match build_cie(ctx, addr, c) {
                Some(b) => {
                    if !write_at(&mut buf, c.output_offset as u64, b.as_slice()) {
                        proof {
                            lemma_cies_none(*ctx, addr, size as int, n + 1, end);
                        }
                        return None;
                    }
                },
                None => {
                    proof {
                        lemma_cies_none(*ctx, addr, size as int, n + 1, end);
                    }
                    return None;
                },
            }
        }
        n += 1;
    }
    Some(buf)
}

/// Builds the bytes of __eh_frame: the CIEs in use and the FDEs at their
/// places, with distances to personality functions, functions and
/// language-specific data.
pub fn encode_eh_frame(ctx: &Context, addr: u64, size: u32) -> (r: Option<Vec<u8>>)
    requires
        ctx.wf(),
    ensures
        match r {
            Some(v) => eh_frame_bytes(*ctx, addr, size as int) == Some(v@),
            None => eh_frame_bytes(*ctx, addr, size as int) is None,
        },
{
    let ghost end = ctx.inputs.fdes.len() as int;
    let mut buf: Vec<u8> = match write_cies(ctx, addr, size) {
        Some(v) => v,
        None => {
            proof {
                lemma_fdes_none(*ctx, addr, size as int, 0, end);
            }
            return None;
        },
    };
    let mut n: usize = 0;
    while n < ctx.inputs.fdes.len()
        invariant
            ctx.wf(),
            n <= ctx.inputs.fdes.len(),
            end == ctx.inputs.fdes.len(),
            with_fdes(*ctx, addr, size as int, n as int) == Some(buf@),
        decreases ctx.inputs.fdes.len() - n,
    {
        let f: &Fde = &ctx.inputs.fdes[n];
        proof {
            assert(ctx.inputs.fde_ok(ctx.inputs.fdes[n as int]));
        }
        let fits: bool = match build_fde(ctx, addr, f) {
            Some(b) => write_at(&mut buf, f.output_offset as u64, b.as_slice()),
            None => false,
        };
        if !fits {
            proof {
                lemma_fdes_none(*ctx, addr, size as int, n + 1, end);
            }
            return None;
        }
        n += 1;
    }
    Some(buf)
}

} // verus!
