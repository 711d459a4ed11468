//! The contents and relocations of the merged sections.
use super::extras::{find_home_ordinal, RelocatableError};
use crate::arch::Arch;
use crate::context::Context;
use crate::input_sections::{InputSection, Reloc, RelocTarget};
use crate::inputs::Inputs;
use crate::macho::MachRel;
use crate::util::bytes;
use vstd::prelude::*;

verus! {

/// How often a field's size can be halved.
pub open spec fn halvings(size: u8) -> u32
    decreases size,
{
    if size == 0 {
        8
    } else if size % 2 == 1 {
        0
    } else {
        (1 + halvings(size / 2)) as u32
    }
}

fn count_halvings(size: u8) -> (r: u32)
    ensures
        r == halvings(size),
        r <= 8,
    decreases size,
{
    if size == 0 {
        8
    } else if size % 2 == 1 {
        0
    } else {
        let half: u8 = size / 2;
        let r: u32 = count_halvings(half);
        proof {
            lemma_halvings(half);
        }
        1 + r
    }
}

proof fn lemma_halvings(size: u8)
    requires
        size > 0,
    ensures
        size < 128 ==> halvings(size) < 8,
    decreases size,
{
    reveal_with_fuel(halvings, 9);
}

/// The bit of a self-relative field.
pub open spec fn pcrel_bit(pcrel: bool) -> u32 {
    if pcrel {
        0x100_0000
    } else {
        0
    }
}

fn get_pcrel_bit(pcrel: bool) -> (r: u32)
    ensures
        r == pcrel_bit(pcrel),
{
    if pcrel {
        0x100_0000
    } else {
        0
    }
}

/// The records that a relocation of a subsection becomes. An explicit addend
/// record precedes a relocation whose instruction cannot hold an addend.
pub open spec fn records_of<E: Arch>(
    x: Inputs,
    ords: Seq<u8>,
    indices: Seq<u32>,
    s: InputSection,
    rel: Reloc,
) -> Result<Seq<MachRel>, RelocatableError> {
    let r_address = bytes::word32(s.output_offset + rel.offset);
    let common = pcrel_bit(rel.is_pcrel) | (halvings(rel.size) << 25) | ((rel.r_type as u32) << 28);
    match rel.refers_to() {
        RelocTarget::Sym(k) => {
            let id = x.objs[s.obj as int].syms[k as int];
            if indices[id as int] == u32::MAX {
                Err(RelocatableError::TargetLost(id))
            } else {
                let record = MachRel { r_address, bits: indices[id as int] | common | 0x800_0000 };
                if rel.addend != 0 && E::addend_record(rel.r_type) {
                    Ok(
                        seq![
                            MachRel {
                                r_address,
                                bits: (bytes::word32(rel.addend as int) & 0xff_ffff) | 0x400_0000
                                    | ((E::info().reloc_addend as u32) << 28),
                            },
                            record,
                        ],
                    )
                } else {
                    Ok(seq![record])
                }
            }
        },
        RelocTarget::Section(t) => Ok(
            seq![
                MachRel {
                    r_address,
                    bits: super::extras::home_ordinal(x, ords, t as int) as u32 | common,
                },
            ],
        ),
    }
}

/// The records of the first `k` relocations of a subsection.
pub open spec fn isec_records<E: Arch>(
    x: Inputs,
    ords: Seq<u8>,
    indices: Seq<u32>,
    s: InputSection,
    k: int,
) -> Result<Seq<MachRel>, RelocatableError>
    decreases k,
{
    if k <= 0 {
        Ok(Seq::empty())
    } else {
        match isec_records::<E>(x, ords, indices, s, k - 1) {
            Err(e) => Err(e),
            Ok(a) => match records_of::<E>(x, ords, indices, s, s.relocs[k - 1]) {
                Err(e) => Err(e),
                Ok(b) => Ok(a + b),
            },
        }
    }
}

/// The records of the first `n` listed subsections.
pub open spec fn list_records<E: Arch>(
    x: Inputs,
    ords: Seq<u8>,
    indices: Seq<u32>,
    ids: Seq<u32>,
    n: int,
) -> Result<Seq<MachRel>, RelocatableError>
    decreases n,
{
    if n <= 0 {
        Ok(Seq::empty())
    } else {
        match list_records::<E>(x, ords, indices, ids, n - 1) {
            Err(e) => Err(e),
            Ok(a) => {
                let s = x.isecs[ids[n - 1] as int];
                match isec_records::<E>(x, ords, indices, s, s.relocs.len() as int) {
                    Err(e) => Err(e),
                    Ok(b) => Ok(a + b),
                }
            },
        }
    }
}

proof fn lemma_isec_records_err<E: Arch>(
    x: Inputs,
    ords: Seq<u8>,
    indices: Seq<u32>,
    s: InputSection,
    e: RelocatableError,
    a: int,
    b: int,
)
    requires
        a <= b,
        isec_records::<E>(x, ords, indices, s, a) == Err::<Seq<MachRel>, RelocatableError>(e),
    ensures
        isec_records::<E>(x, ords, indices, s, b) == Err::<Seq<MachRel>, RelocatableError>(e),
    decreases b - a,
{
    if a < b && b > 0 {
        lemma_isec_records_err::<E>(x, ords, indices, s, e, a, b - 1);
    }
}

proof fn lemma_list_records_err<E: Arch>(
    x: Inputs,
    ords: Seq<u8>,
    indices: Seq<u32>,
    ids: Seq<u32>,
    e: RelocatableError,
    a: int,
    b: int,
)
    requires
        a <= b,
        list_records::<E>(x, ords, indices, ids, a) == Err::<Seq<MachRel>, RelocatableError>(e),
    ensures
        list_records::<E>(x, ords, indices, ids, b) == Err::<Seq<MachRel>, RelocatableError>(e),
    decreases b - a,
{
    if a < b && b > 0 {
        lemma_list_records_err::<E>(x, ords, indices, ids, e, a, b - 1);
    }
}

/// Appends the records that one relocation becomes.
fn push_records<E: Arch>(
    x: &Inputs,
    ords: &Vec<u8>,
    indices: &Vec<u32>,
    id: usize,
    k: usize,
    out: &mut Vec<MachRel>,
) -> (r: Result<(), RelocatableError>)
    requires
        x.wf(),
        indices.len() == x.symtab.syms.len(),
        id < x.isecs.len(),
        k < x.isecs[id as int].relocs.len(),
    ensures
        ({
            let s = x.isecs[id as int];
            let want = records_of::<E>(*x, ords@, indices@, s, s.relocs[k as int]);
            match r {
                Ok(()) => want matches Ok(b) && final(out)@ == old(out)@ + b,
                Err(e) => want == Err::<Seq<MachRel>, RelocatableError>(e),
            }
        }),
{
    proof {
        assert(x.isec_ok(x.isecs[id as int]));
        assert(x.reloc_ok(x.isecs[id as int].obj, x.isecs[id as int].relocs[k as int]));
    }
    let s: &InputSection = &x.isecs[id];
    let rel: &Reloc = &s.relocs[k];
    let ghost before = out@;
    let sum: u64 = bytes::sum64(s.output_offset, rel.offset as u64);
    let r_address: u32 = bytes::low32(sum);
    proof {
        bytes::lemma_word32_word64(s.output_offset + rel.offset);
    }
    let length: u32 = count_halvings(rel.size);
    let common: u32 = get_pcrel_bit(rel.is_pcrel) | (length << 25) | ((rel.r_type as u32) << 28);
    match rel.target() {
        RelocTarget::Sym(i) => {
            proof {
                assert(x.obj_ok(x.objs[s.obj as int]));
            }
            let sym: u32 = x.objs[s.obj as usize].syms[i as usize];
            let symnum: u32 = indices[sym as usize];
            if symnum == u32::MAX {
                return Err(RelocatableError::TargetLost(sym));
            }
            if rel.addend != 0 && E::relocatable_needs_addend(rel.r_type) {
                let low: u32 = bytes::low32(bytes::from_signed64(rel.addend));
                proof {
                    bytes::lemma_word32_word64(rel.addend as int);
                }
                let info = E::get_info();
                out.push(
                    MachRel {
                        r_address,
                        bits: (low & 0xff_ffff) | 0x400_0000 | ((info.reloc_addend as u32) << 28),
                    },
                );
            }
            out.push(MachRel { r_address, bits: symnum | common | 0x800_0000 });
        },
        RelocTarget::Section(t) => {
            let ord: u8 = find_home_ordinal(x, ords, t as usize);
            out.push(MachRel { r_address, bits: ord as u32 | common });
        },
    }
    assert(out@ =~= before + records_of::<E>(*x, ords@, indices@, *s, *rel)->Ok_0);
    Ok(())
}

/// Regenerates the relocations of the listed subsections.
pub fn build_records<E: Arch>(
    x: &Inputs,
    ords: &Vec<u8>,
    indices: &Vec<u32>,
    ids: &Vec<u32>,
) -> (r: Result<Vec<MachRel>, RelocatableError>)
    requires
        x.wf(),
        indices.len() == x.symtab.syms.len(),
        forall|i: int| 0 <= i < ids.len() ==> (#[trigger] ids[i]) < x.isecs.len(),
    ensures
        match r {
            Ok(v) => list_records::<E>(*x, ords@, indices@, ids@, ids.len() as int) == Ok::<
                Seq<MachRel>,
                RelocatableError,
            >(v@),
            Err(e) => list_records::<E>(*x, ords@, indices@, ids@, ids.len() as int) == Err::<
                Seq<MachRel>,
                RelocatableError,
            >(e),
        },
{
    let mut out: Vec<MachRel> = Vec::new();
    assert(out@ =~= Seq::empty());
    let mut n: usize = 0;
    while n < ids.len()
        invariant
            x.wf(),
            indices.len() == x.symtab.syms.len(),
            forall|i: int| 0 <= i < ids.len() ==> (#[trigger] ids[i]) < x.isecs.len(),
            n <= ids.len(),
            list_records::<E>(*x, ords@, indices@, ids@, n as int) == Ok::<
                Seq<MachRel>,
                RelocatableError,
            >(out@),
        decreases ids.len() - n,
    {
        let id: usize = ids[n] as usize;
        let ghost s = x.isecs[id as int];
        let ghost before = out@;
        assert(before + Seq::<MachRel>::empty() =~= before);
        let mut k: usize = 0;
        while k < x.isecs[id].relocs.len()
            invariant
                x.wf(),
                indices.len() == x.symtab.syms.len(),
                n < ids.len(),
                id == ids[n as int],
                id < x.isecs.len(),
                s == x.isecs[id as int],
                k <= s.relocs.len(),
                list_records::<E>(*x, ords@, indices@, ids@, n as int) == Ok::<
                    Seq<MachRel>,
                    RelocatableError,
                >(before),
                isec_records::<E>(*x, ords@, indices@, s, k as int) is Ok,
                out@ == before + isec_records::<E>(*x, ords@, indices@, s, k as int)->Ok_0,
            decreases s.relocs.len() - k,
        {
            let ghost a = isec_records::<E>(*x, ords@, indices@, s, k as int)->Ok_0;
            match push_records::<E>(x, ords, indices, id, k, &mut out) {
                Ok(()) => {},
                Err(e) => {
                    proof {
                        lemma_isec_records_err::<E>(
                            *x,
                            ords@,
                            indices@,
                            s,
                            e,
                            k + 1,
                            s.relocs.len() as int,
                        );
                        lemma_list_records_err::<E>(
                            *x,
                            ords@,
                            indices@,
                            ids@,
                            e,
                            n + 1,
                            ids.len() as int,
                        );
                    }
                    return Err(e);
                },
            }
            proof {
                let b = records_of::<E>(*x, ords@, indices@, s, s.relocs[k as int])->Ok_0;
                assert((before + a) + b =~= before + (a + b));
            }
            k += 1;
        }
        n += 1;
    }
    Ok(out)
}

/// A subsection's bytes with one relocation against a section rewritten:
/// its field gets the target's address in the merged address space, or the
/// distance to it from behind a self-relative field.
pub open spec fn rewritten<E: Arch>(
    ctx: Context,
    base: u64,
    s: InputSection,
    rel: Reloc,
    data: Seq<u8>,
) -> Result<Seq<u8>, RelocatableError> {
    match rel.refers_to() {
        RelocTarget::Sym(_) => Ok(data),
        RelocTarget::Section(t) => {
            let target = bytes::word64(ctx.addr_of_isec(t as int) + rel.addend);
            let at = rel.offset as int;
            if rel.r_type == E::info().reloc_unsigned && !rel.is_pcrel {
                if rel.size == 8 {
                    if at + 8 <= data.len() {
                        Ok(bytes::patched(data, at, bytes::le64(target)))
                    } else {
                        Err(RelocatableError::OutOfBounds)
                    }
                } else if rel.size == 4 {
                    if at + 4 <= data.len() {
                        Ok(bytes::patched(data, at, bytes::le32(bytes::word32(target as int))))
                    } else {
                        Err(RelocatableError::OutOfBounds)
                    }
                } else {
                    Ok(data)
                }
            } else if rel.is_pcrel {
                let here = base + s.output_offset + rel.offset;
                if rel.size == 4 {
                    if at + 4 <= data.len() {
                        Ok(bytes::patched(data, at, bytes::le32(bytes::word32(target - (here + 4)))))
                    } else {
                        Err(RelocatableError::OutOfBounds)
                    }
                } else {
                    Ok(data)
                }
            } else {
                Err(RelocatableError::UnsupportedReloc)
            }
        },
    }
}

/// A subsection's bytes with its first `k` relocations rewritten.
pub open spec fn rewritten_to<E: Arch>(ctx: Context, base: u64, s: InputSection, k: int) -> Result<
    Seq<u8>,
    RelocatableError,
>
    decreases k,
{
    if k <= 0 {
        Ok(s.data@)
    } else {
        match rewritten_to::<E>(ctx, base, s, k - 1) {
            Err(e) => Err(e),
            Ok(d) => rewritten::<E>(ctx, base, s, s.relocs[k - 1], d),
        }
    }
}

proof fn lemma_rewritten_err<E: Arch>(
    ctx: Context,
    base: u64,
    s: InputSection,
    e: RelocatableError,
    a: int,
    b: int,
)
    requires
        a <= b,
        rewritten_to::<E>(ctx, base, s, a) == Err::<Seq<u8>, RelocatableError>(e),
    ensures
        rewritten_to::<E>(ctx, base, s, b) == Err::<Seq<u8>, RelocatableError>(e),
    decreases b - a,
{
    if a < b && b > 0 {
        lemma_rewritten_err::<E>(ctx, base, s, e, a, b - 1);
    }
}

/// Rewrites one relocation against a section.
fn rewrite<E: Arch>(ctx: &Context, base: u64, s: &InputSection, rel: &Reloc, data: &mut Vec<u8>) -> (
    r: Result<(), RelocatableError>)
    requires
        ctx.wf(),
        rel.refers_to() matches RelocTarget::Section(t) ==> t < ctx.inputs.isecs.len(),
    ensures
        match r {
            Ok(()) => rewritten::<E>(*ctx, base, *s, *rel, old(data)@) == Ok::<
                Seq<u8>,
                RelocatableError,
            >(final(data)@),
            Err(e) => rewritten::<E>(*ctx, base, *s, *rel, old(data)@) == Err::<
                Seq<u8>,
                RelocatableError,
            >(e),
        },
        final(data).len() == old(data).len(),
{
    let t: u32 = match rel.target() {
        RelocTarget::Sym(_) => {
            return Ok(());
        },
        RelocTarget::Section(t) => t,
    };
    let target: u64 = bytes::offset_by(ctx.isec_addr(t as usize), rel.addend);
    let at: usize = rel.offset as usize;
    let room: usize = if at <= data.len() {
        data.len() - at
    } else {
        0
    };
    if rel.r_type == E::get_info().reloc_unsigned && !rel.is_pcrel {
        if rel.size == 8 {
            if room < 8 {
                return Err(RelocatableError::OutOfBounds);
            }
            bytes::put64(data, at, target);
        } else if rel.size == 4 {
            if room < 4 {
                return Err(RelocatableError::OutOfBounds);
            }
            bytes::put32(data, at, bytes::low32(target));
        }
    } else if rel.is_pcrel {
        if rel.size == 4 {
            if room < 4 {
                return Err(RelocatableError::OutOfBounds);
            }
            let here: u64 = bytes::sum64(
                bytes::sum64(base, s.output_offset),
                rel.offset as u64 + 4,
            );
            let dist: u64 = bytes::distance(target, here);
            proof {
                let h = base + s.output_offset + rel.offset + 4;
                bytes::lemma_word64_sum(base + s.output_offset, rel.offset + 4);
                assert(here == bytes::word64(h));
                lemma_distance(target as int, h);
                bytes::lemma_word32_word64(target - h);
            }
            bytes::put32(data, at, bytes::low32(dist));
        }
    } else {
        return Err(RelocatableError::UnsupportedReloc);
    }
    Ok(())
}

/// A distance to an address depends on the address modulo 2^64 only.
proof fn lemma_distance(a: int, b: int)
    ensures
        bytes::word64(a - bytes::word64(b)) == bytes::word64(a - b),
{
    reveal(bytes::word64);
    vstd::arithmetic::div_mod::lemma_sub_mod_noop_right(a, b, 0x1_0000_0000_0000_0000);
}

/// A section's bytes with the first `n` listed subsections copied in.
pub open spec fn copied_to<E: Arch>(
    ctx: Context,
    base: u64,
    size: u64,
    ids: Seq<u32>,
    n: int,
) -> Result<Seq<u8>, RelocatableError>
    decreases n,
{
    if n <= 0 {
        Ok(bytes::zeros(size as int))
    } else {
        match copied_to::<E>(ctx, base, size, ids, n - 1) {
            Err(e) => Err(e),
            Ok(buf) => {
                let s = ctx.inputs.isecs[ids[n - 1] as int];
                if s.data.len() == 0 {
                    Ok(buf)
                } else if s.output_offset + s.data.len() > size {
                    Err(RelocatableError::OutOfBounds)
                } else {
                    match rewritten_to::<E>(ctx, base, s, s.relocs.len() as int) {
                        Err(e) => Err(e),
                        Ok(d) => Ok(bytes::patched(buf, s.output_offset as int, d)),
                    }
                }
            },
        }
    }
}

proof fn lemma_copied_err<E: Arch>(
    ctx: Context,
    base: u64,
    size: u64,
    ids: Seq<u32>,
    e: RelocatableError,
    a: int,
    b: int,
)
    requires
        a <= b,
        copied_to::<E>(ctx, base, size, ids, a) == Err::<Seq<u8>, RelocatableError>(e),
    ensures
        copied_to::<E>(ctx, base, size, ids, b) == Err::<Seq<u8>, RelocatableError>(e),
    decreases b - a,
{
    if a < b && b > 0 {
        lemma_copied_err::<E>(ctx, base, size, ids, e, a, b - 1);
    }
}

/// The bytes of one subsection, rewritten.
fn rewrite_isec<E: Arch>(ctx: &Context, base: u64, id: usize) -> (r: Result<
    Vec<u8>,
    RelocatableError,
>)
    requires
        ctx.wf(),
        id < ctx.inputs.isecs.len(),
    ensures
        ({
            let s = ctx.inputs.isecs[id as int];
            match r {
                Ok(d) => rewritten_to::<E>(*ctx, base, s, s.relocs.len() as int) == Ok::<
                    Seq<u8>,
                    RelocatableError,
                >(d@) && d.len() == s.data.len(),
                Err(e) => rewritten_to::<E>(*ctx, base, s, s.relocs.len() as int) == Err::<
                    Seq<u8>,
                    RelocatableError,
                >(e),
            }
        }),
{
    let s: &InputSection = &ctx.inputs.isecs[id];
    let mut d: Vec<u8> = bytes::to_vec(s.data.as_slice());
    let mut k: usize = 0;
    while k < s.relocs.len()
        invariant
            ctx.wf(),
            id < ctx.inputs.isecs.len(),
            *s == ctx.inputs.isecs[id as int],
            k <= s.relocs.len(),
            d.len() == s.data.len(),
            rewritten_to::<E>(*ctx, base, *s, k as int) == Ok::<Seq<u8>, RelocatableError>(d@),
        decreases s.relocs.len() - k,
    {
        proof {
            assert(ctx.inputs.isec_ok(*s));
            assert(ctx.inputs.reloc_ok(s.obj, s.relocs[k as int]));
        }
        match rewrite::<E>(ctx, base, s, &s.relocs[k], &mut d) {
            Ok(()) => {},
            Err(e) => {
                proof {
                    lemma_rewritten_err::<E>(*ctx, base, *s, e, k + 1, s.relocs.len() as int);
                }
                return Err(e);
            },
        }
        k += 1;
    }
    Ok(d)
}

/// Copies the listed subsections into a section of `size` bytes.
pub fn copy_section<E: Arch>(ctx: &Context, base: u64, size: u64, ids: &Vec<u32>) -> (r: Result<
    Vec<u8>,
    RelocatableError,
>)
    requires
        ctx.wf(),
        size <= u32::MAX,
        forall|i: int| 0 <= i < ids.len() ==> (#[trigger] ids[i]) < ctx.inputs.isecs.len(),
    ensures
        match r {
            Ok(v) => copied_to::<E>(*ctx, base, size, ids@, ids.len() as int) == Ok::<
                Seq<u8>,
                RelocatableError,
            >(v@) && v.len() == size,
            Err(e) => copied_to::<E>(*ctx, base, size, ids@, ids.len() as int) == Err::<
                Seq<u8>,
                RelocatableError,
            >(e),
        },
{
    let mut buf: Vec<u8> = Vec::new();
    bytes::push_zeros(&mut buf, size as usize);
    assert(buf@ =~= bytes::zeros(size as int));
    let mut n: usize = 0;
    while n < ids.len()
        invariant
            ctx.wf(),
            size <= u32::MAX,
            forall|i: int| 0 <= i < ids.len() ==> (#[trigger] ids[i]) < ctx.inputs.isecs.len(),
            n <= ids.len(),
            buf.len() == size,
            copied_to::<E>(*ctx, base, size, ids@, n as int) == Ok::<Seq<u8>, RelocatableError>(
                buf@,
            ),
        decreases ids.len() - n,
    {
        let id: usize = ids[n] as usize;
        let ghost last = ids.len() as int;
        let off: u64 = ctx.inputs.isecs[id].output_offset;
        let len: usize = ctx.inputs.isecs[id].data.len();
        if len > 0 {
            if off as u128 + len as u128 > size as u128 {
                proof {
                    lemma_copied_err::<E>(
                        *ctx,
                        base,
                        size,
                        ids@,
                        RelocatableError::OutOfBounds,
                        n + 1,
                        last,
                    );
                }
                return Err(RelocatableError::OutOfBounds);
            }
            match rewrite_isec::<E>(ctx, base, id) {
                Ok(d) => {
                    bytes::patch(&mut buf, off as usize, d.as_slice());
                },
                Err(e) => {
                    proof {
                        lemma_copied_err::<E>(*ctx, base, size, ids@, e, n + 1, last);
                    }
                    return Err(e);
                },
            }
        }
        n += 1;
    }
    Ok(buf)
}

} // verus!
