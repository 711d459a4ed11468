//! The sections that a relocatable output gets behind the merged ones.
use crate::arch::Arch;
use crate::context::Context;
use crate::input_files::{Cie, Fde, UnwindRecord};
use crate::input_sections::{InputSection, NO_REPLACEMENT};
use crate::inputs::{resolve_isec, Inputs};
use crate::macho::consts::S_ATTR_DEBUG;
use crate::macho::MachRel;
use crate::passes::stabs::find_ordinal;
use crate::util::bytes;
use vstd::prelude::*;
use vstd::string::*;

verus! {

/// Why no relocatable output can be written.
#[derive(Clone, Copy, Debug, PartialEq, Eq, Structural)]
pub enum RelocatableError {
    /// The output does not fit in its 32-bit fields.
    TooLarge,
    /// There are more sections than a symbol can tell apart.
    TooManySections,
    /// The personality routine of unwind info is not in the symbol table.
    PersonalityLost(u32),
    /// The symbol that a relocation refers to is not in the symbol table.
    TargetLost(u32),
    /// A DWARF frame record is too short.
    BadFrame,
    /// A relocation or a subsection reaches out of its section.
    OutOfBounds,
    /// A relocation against a section has a form that cannot be rewritten.
    UnsupportedReloc,
}

/// A section that is appended behind the merged input sections.
#[derive(Debug)]
pub struct ExtraSection {
    pub segname: Vec<u8>,
    pub sectname: Vec<u8>,
    pub flags: u32,
    pub data: Vec<u8>,
    pub relocs: Vec<MachRel>,
    /// Self-relative cells, which are filled once the section's address is
    /// known: offset, target address and size of each.
    pub patches: Vec<(u32, u64, u8)>,
}

/// What such a section holds, as mathematical values.
#[verifier::ext_equal]
pub struct ExtraView {
    pub segname: Seq<u8>,
    pub sectname: Seq<u8>,
    pub flags: u32,
    pub data: Seq<u8>,
    pub relocs: Seq<MachRel>,
    pub patches: Seq<(u32, u64, u8)>,
}

impl View for ExtraSection {
    type V = ExtraView;

    open spec fn view(&self) -> ExtraView {
        ExtraView {
            segname: self.segname@,
            sectname: self.sectname@,
            flags: self.flags,
            data: self.data@,
            relocs: self.relocs@,
            patches: self.patches@,
        }
    }
}

/// A list of such sections.
pub open spec fn extra_views(v: Seq<ExtraSection>) -> Seq<ExtraView> {
    v.map_values(|e: ExtraSection| e@)
}

/// The relocation bits of an eight-byte absolute pointer into a section.
pub open spec fn pointer_bits(ord: u8) -> u32 {
    ord as u32 | 0x0600_0000
}

/// The relocation bits of an eight-byte absolute pointer to a symbol.
pub open spec fn symbol_pointer_bits(symnum: u32) -> u32 {
    symnum | 0x0e00_0000
}

/// The relocation bits of a four-byte reference to a symbol's GOT cell.
pub open spec fn got_bits(symnum: u32, gotpc: u8) -> u32 {
    symnum | 0x0d00_0000 | ((gotpc as u32) << 28)
}

/// The ordinal of the section that a subsection is part of.
pub open spec fn home_ordinal(x: Inputs, ords: Seq<u8>, id: int) -> u8 {
    crate::passes::stabs::ordinal(
        ords,
        x.isecs[crate::inputs::survivor(x.isecs@, id)].osec,
    )
}

/// The ordinal of the section that a subsection is part of.
pub fn find_home_ordinal(x: &Inputs, ords: &Vec<u8>, id: usize) -> (r: u8)
    requires
        x.wf(),
        id < x.isecs.len(),
    ensures
        r == home_ordinal(*x, ords@, id as int),
{
    proof {
        crate::inputs::lemma_wf_redirects(*x);
    }
    let at: usize = resolve_isec(&x.isecs, id);
    find_ordinal(ords, x.isecs[at].osec)
}

/// The 32 bytes of a __compact_unwind entry.
pub open spec fn unwind_entry(ctx: Context, r: UnwindRecord) -> Seq<u8> {
    bytes::le64(bytes::word64(ctx.addr_of_isec(r.isec as int) + r.input_offset)) + bytes::le32(
        r.code_len,
    ) + bytes::le32(r.encoding) + bytes::le64(0) + bytes::le64(
        match r.lsda {
            Some(l) => bytes::word64(ctx.addr_of_isec(l.0 as int) + l.1),
            None => 0,
        },
    )
}

/// The relocations of a __compact_unwind entry at `off`.
pub open spec fn unwind_relocs(
    x: Inputs,
    ords: Seq<u8>,
    indices: Seq<u32>,
    r: UnwindRecord,
    off: int,
) -> Seq<MachRel> {
    let func = seq![
        MachRel {
            r_address: off as u32,
            bits: pointer_bits(home_ordinal(x, ords, r.isec as int)),
        },
    ];
    let personality = match r.personality {
        Some(p) => seq![
            MachRel {
                r_address: (off + 16) as u32,
                bits: symbol_pointer_bits(indices[p as int]),
            },
        ],
        None => Seq::empty(),
    };
    let lsda = match r.lsda {
        Some(l) => seq![
            MachRel {
                r_address: (off + 24) as u32,
                bits: pointer_bits(home_ordinal(x, ords, l.0 as int)),
            },
        ],
        None => Seq::empty(),
    };
    func + personality + lsda
}

/// Bytes and the relocations of them.
#[verifier::ext_equal]
pub struct Piece {
    pub data: Seq<u8>,
    pub relocs: Seq<MachRel>,
}

/// The __compact_unwind entries of the first `n` records: records that come
/// from DWARF are left to the frame section, and a folded function has no
/// entry of its own.
pub open spec fn unwind_to(
    ctx: Context,
    ords: Seq<u8>,
    indices: Seq<u32>,
    n: int,
) -> Result<Piece, RelocatableError>
    decreases n,
{
    if n <= 0 {
        Ok(Piece { data: Seq::empty(), relocs: Seq::empty() })
    } else {
        match unwind_to(ctx, ords, indices, n - 1) {
            Err(e) => Err(e),
            Ok(p) => {
                let r = ctx.inputs.unwind_records[n - 1];
                if !crate::passes::tables::is_in_output(ctx, r) || r.fde is Some {
                    Ok(p)
                } else if p.data.len() + 32 > u32::MAX {
                    Err(RelocatableError::TooLarge)
                } else if r.personality is Some && indices[r.personality->0 as int] == u32::MAX {
                    Err(RelocatableError::PersonalityLost(r.personality->0))
                } else {
                    Ok(
                        Piece {
                            data: p.data + unwind_entry(ctx, r),
                            relocs: p.relocs + unwind_relocs(
                                ctx.inputs,
                                ords,
                                indices,
                                r,
                                p.data.len() as int,
                            ),
                        },
                    )
                }
            },
        }
    }
}

proof fn lemma_unwind_err(
    ctx: Context,
    ords: Seq<u8>,
    indices: Seq<u32>,
    e: RelocatableError,
    a: int,
    b: int,
)
    requires
        a <= b,
        unwind_to(ctx, ords, indices, a) == Err::<Piece, RelocatableError>(e),
    ensures
        unwind_to(ctx, ords, indices, b) == Err::<Piece, RelocatableError>(e),
    decreases b - a,
{
    if a < b && b > 0 {
        lemma_unwind_err(ctx, ords, indices, e, a, b - 1);
    }
}

/// Appends one __compact_unwind entry and its relocations.
fn push_unwind(
    ctx: &Context,
    ords: &Vec<u8>,
    indices: &Vec<u32>,
    r: &UnwindRecord,
    data: &mut Vec<u8>,
    relocs: &mut Vec<MachRel>,
)
    requires
        ctx.wf(),
        ctx.inputs.record_ok(*r),
        indices.len() == ctx.inputs.symtab.syms.len(),
        old(data).len() + 32 <= u32::MAX,
    ensures
        final(data)@ == old(data)@ + unwind_entry(*ctx, *r),
        final(relocs)@ == old(relocs)@ + unwind_relocs(
            ctx.inputs,
            ords@,
            indices@,
            *r,
            old(data).len() as int,
        ),
{
    let x: &Inputs = &ctx.inputs;
    let off: u32 = data.len() as u32;
    let ghost rb = relocs@;
    let ghost db = data@;
    let func: u64 = bytes::sum64(ctx.isec_addr(r.isec), r.input_offset as u64);
    bytes::push64(data, func);
    bytes::push32(data, r.code_len);
    bytes::push32(data, r.encoding);
    bytes::push64(data, 0);
    let ord: u8 = find_home_ordinal(x, ords, r.isec);
    relocs.push(MachRel { r_address: off, bits: ord as u32 | 0x0600_0000 });
    if let Some(p) = r.personality {
        relocs.push(
            MachRel { r_address: off + 16, bits: indices[p as usize] | 0x0e00_0000 },
        );
    }
    match r.lsda {
        Some(l) => {
            let lsda: u64 = bytes::sum64(ctx.isec_addr(l.0), l.1 as u64);
            bytes::push64(data, lsda);
            let ord: u8 = find_home_ordinal(x, ords, l.0);
            relocs.push(MachRel { r_address: off + 24, bits: ord as u32 | 0x0600_0000 });
        },
        None => {
            bytes::push64(data, 0);
        },
    }
    assert(data@ =~= db + unwind_entry(*ctx, *r));
    assert(relocs@ =~= rb + unwind_relocs(*x, ords@, indices@, *r, off as int));
}

/// Builds the __compact_unwind contents.
fn build_unwind(ctx: &Context, ords: &Vec<u8>, indices: &Vec<u32>) -> (r: Result<
    (Vec<u8>, Vec<MachRel>),
    RelocatableError,
>)
    requires
        ctx.wf(),
        indices.len() == ctx.inputs.symtab.syms.len(),
    ensures
        match r {
            Ok(p) => unwind_to(
                *ctx,
                ords@,
                indices@,
                ctx.inputs.unwind_records.len() as int,
            ) == Ok::<Piece, RelocatableError>(Piece { data: p.0@, relocs: p.1@ }),
            Err(e) => unwind_to(
                *ctx,
                ords@,
                indices@,
                ctx.inputs.unwind_records.len() as int,
            ) == Err::<Piece, RelocatableError>(e),
        },
{
    let x: &Inputs = &ctx.inputs;
    let mut data: Vec<u8> = Vec::new();
    let mut relocs: Vec<MachRel> = Vec::new();
    let mut n: usize = 0;
    assert(data@ =~= Seq::empty());
    assert(relocs@ =~= Seq::empty());
    while n < x.unwind_records.len()
        invariant
            ctx.wf(),
            *x == ctx.inputs,
            indices.len() == x.symtab.syms.len(),
            n <= x.unwind_records.len(),
            unwind_to(*ctx, ords@, indices@, n as int) == Ok::<Piece, RelocatableError>(
                (Piece { data: data@, relocs: relocs@ }),
            ),
        decreases x.unwind_records.len() - n,
    {
        let r: &UnwindRecord = &x.unwind_records[n];
        proof {
            assert(x.record_ok(x.unwind_records[n as int]));
        }
        let ghost last = x.unwind_records.len() as int;
        let s: &InputSection = &x.isecs[r.isec];
        if s.is_alive && s.replacement == NO_REPLACEMENT && r.fde.is_none() {
            if data.len() > u32::MAX as usize - 32 {
                proof {
                    lemma_unwind_err(
                        *ctx,
                        ords@,
                        indices@,
                        RelocatableError::TooLarge,
                        n + 1,
                        last,
                    );
                }
                return Err(RelocatableError::TooLarge);
            }
            if let Some(p) = r.personality {
                if indices[p as usize] == u32::MAX {
                    proof {
                        lemma_unwind_err(
                            *ctx,
                            ords@,
                            indices@,
                            RelocatableError::PersonalityLost(p),
                            n + 1,
                            last,
                        );
                    }
                    return Err(RelocatableError::PersonalityLost(p));
                }
            }
            push_unwind(ctx, ords, indices, r, &mut data, &mut relocs);
        }
        n += 1;
    }
    Ok((data, relocs))
}

/// A frame section while it is built.
#[verifier::ext_equal]
pub struct FrameView {
    pub data: Seq<u8>,
    pub relocs: Seq<MachRel>,
    pub patches: Seq<(u32, u64, u8)>,
    /// Where each CIE stands, `u32::MAX` for those that are not written.
    pub cies: Seq<u32>,
}

/// True for an FDE of a live function.
pub open spec fn fde_lives(x: Inputs, f: int) -> bool {
    x.isecs[crate::inputs::survivor(x.isecs@, x.fdes[f].isec as int)].is_alive
}

/// The CIE of an FDE written, unless it is already.
pub open spec fn with_cie(
    x: Inputs,
    indices: Seq<u32>,
    gotpc: u8,
    p: FrameView,
    f: int,
) -> Result<FrameView, RelocatableError> {
    let c = x.fdes[f].cie as int;
    let cie = x.cies[c];
    let off = p.data.len();
    if !fde_lives(x, f) || p.cies[c] != u32::MAX {
        Ok(p)
    } else if off + cie.data.len() >= u32::MAX {
        Err(RelocatableError::TooLarge)
    } else {
        let cies = p.cies.update(c, off as u32);
        match cie.personality {
            None => Ok(FrameView { data: p.data + cie.data@, cies, ..p }),
            Some(s) => if indices[s as int] == u32::MAX {
                Err(RelocatableError::PersonalityLost(s))
            } else if cie.personality_offset + 4 > cie.data.len() {
                Err(RelocatableError::BadFrame)
            } else {
                Ok(
                    FrameView {
                        data: p.data + bytes::patched(
                            cie.data@,
                            cie.personality_offset as int,
                            bytes::le32(0),
                        ),
                        relocs: p.relocs.push(
                            MachRel {
                                r_address: (off + cie.personality_offset) as u32,
                                bits: got_bits(indices[s as int], gotpc),
                            },
                        ),
                        cies,
                        ..p
                    },
                )
            },
        }
    }
}

/// The CIEs of the first `n` FDEs written.
pub open spec fn cies_to(x: Inputs, indices: Seq<u32>, gotpc: u8, n: int) -> Result<
    FrameView,
    RelocatableError,
>
    decreases n,
{
    if n <= 0 {
        Ok(
            FrameView {
                data: Seq::empty(),
                relocs: Seq::empty(),
                patches: Seq::empty(),
                cies: Seq::new(x.cies@.len(), |i: int| u32::MAX),
            },
        )
    } else {
        match cies_to(x, indices, gotpc, n - 1) {
            Err(e) => Err(e),
            Ok(p) => with_cie(x, indices, gotpc, p, n - 1),
        }
    }
}

/// Where the first byte below 0x80 stands at or behind `from`, if any.
pub open spec fn leb_last(data: Seq<u8>, from: int) -> Option<int>
    decreases data.len() - from,
{
    if from >= data.len() {
        None
    } else if data[from] < 0x80 {
        Some(from)
    } else {
        leb_last(data, from + 1)
    }
}

/// Finds the first byte below 0x80 at or behind `start`.
pub fn find_leb_last(data: &Vec<u8>, start: usize) -> (r: Option<usize>)
    ensures
        match r {
            Some(i) => leb_last(data@, start as int) == Some(i as int) && i < data.len(),
            None => leb_last(data@, start as int) is None,
        },
{
    let mut i: usize = start;
    while i < data.len()
        invariant
            start <= i,
            i <= data.len() || i == start,
            leb_last(data@, i as int) == leb_last(data@, start as int),
        decreases data.len() - i,
    {
        if data[i] < 0x80 {
            return Some(i);
        }
        i += 1;
    }
    None
}

/// The patch of an FDE's pointer to its language-specific data, which stands
/// behind the augmentation's length.
pub open spec fn lsda_patch(ctx: Context, off: int, f: Fde) -> Result<
    Seq<(u32, u64, u8)>,
    RelocatableError,
> {
    match f.lsda {
        None => Ok(Seq::empty()),
        Some(l) => {
            let size = ctx.inputs.cies[f.cie as int].lsda_size;
            match leb_last(f.data@, 24) {
                Some(k) if (size == 4 || size == 8) && k + 1 + size <= f.data.len() => Ok(
                    seq![
                        (
                            (off + k + 1) as u32,
                            bytes::word64(ctx.addr_of_isec(l.0 as int) + l.1),
                            size,
                        ),
                    ],
                ),
                _ => Err(RelocatableError::BadFrame),
            }
        },
    }
}

/// One more FDE written, as far as its function is live.
pub open spec fn with_fde(ctx: Context, p: FrameView, i: int) -> Result<
    FrameView,
    RelocatableError,
> {
    let x = ctx.inputs;
    let f = x.fdes[i];
    let off = p.data.len() as int;
    if !fde_lives(x, i) {
        Ok(p)
    } else if off + f.data.len() >= u32::MAX {
        Err(RelocatableError::TooLarge)
    } else if f.data.len() < 16 || p.cies[f.cie as int] > off + 4 {
        Err(RelocatableError::BadFrame)
    } else {
        match lsda_patch(ctx, off, f) {
            Err(e) => Err(e),
            Ok(lsda) => Ok(
                FrameView {
                    data: p.data + bytes::patched(
                        f.data@,
                        4,
                        bytes::le32((off + 4 - p.cies[f.cie as int]) as u32),
                    ),
                    patches: p.patches + seq![
                        (
                            (off + 8) as u32,
                            bytes::word64(ctx.addr_of_isec(f.isec as int) + f.func_offset),
                            8u8,
                        ),
                    ] + lsda,
                    ..p
                },
            ),
        }
    }
}

/// The first `n` FDEs written behind all CIEs.
pub open spec fn frames_to(ctx: Context, indices: Seq<u32>, gotpc: u8, n: int) -> Result<
    FrameView,
    RelocatableError,
>
    decreases n,
{
    if n <= 0 {
        cies_to(ctx.inputs, indices, gotpc, ctx.inputs.fdes.len() as int)
    } else {
        match frames_to(ctx, indices, gotpc, n - 1) {
            Err(e) => Err(e),
            Ok(p) => with_fde(ctx, p, n - 1),
        }
    }
}

proof fn lemma_cies_err(
    x: Inputs,
    indices: Seq<u32>,
    gotpc: u8,
    e: RelocatableError,
    a: int,
    b: int,
)
    requires
        a <= b,
        cies_to(x, indices, gotpc, a) == Err::<FrameView, RelocatableError>(e),
    ensures
        cies_to(x, indices, gotpc, b) == Err::<FrameView, RelocatableError>(e),
    decreases b - a,
{
    if a < b && b > 0 {
        lemma_cies_err(x, indices, gotpc, e, a, b - 1);
    }
}

proof fn lemma_frames_err(
    ctx: Context,
    indices: Seq<u32>,
    gotpc: u8,
    e: RelocatableError,
    a: int,
    b: int,
)
    requires
        0 <= a <= b,
        frames_to(ctx, indices, gotpc, a) == Err::<FrameView, RelocatableError>(e),
    ensures
        frames_to(ctx, indices, gotpc, b) == Err::<FrameView, RelocatableError>(e),
    decreases b - a,
{
    if a < b && b > 0 {
        lemma_frames_err(ctx, indices, gotpc, e, a, b - 1);
    }
}

/// A frame section while it is built.
struct Frame {
    data: Vec<u8>,
    relocs: Vec<MachRel>,
    patches: Vec<(u32, u64, u8)>,
    cies: Vec<u32>,
}

impl View for Frame {
    type V = FrameView;

    closed spec fn view(&self) -> FrameView {
        FrameView {
            data: self.data@,
            relocs: self.relocs@,
            patches: self.patches@,
            cies: self.cies@,
        }
    }
}

fn is_fde_live(x: &Inputs, f: usize) -> (r: bool)
    requires
        x.wf(),
        f < x.fdes.len(),
    ensures
        r == fde_lives(*x, f as int),
{
    proof {
        crate::inputs::lemma_wf_redirects(*x);
        assert(x.fde_ok(x.fdes[f as int]));
    }
    let at: usize = resolve_isec(&x.isecs, x.fdes[f].isec);
    x.isecs[at].is_alive
}

/// Writes the CIE of an FDE, unless it is written.
fn push_cie(x: &Inputs, indices: &Vec<u32>, gotpc: u8, f: usize, p: &mut Frame) -> (r: Result<
    (),
    RelocatableError,
>)
    requires
        x.wf(),
        f < x.fdes.len(),
        indices.len() == x.symtab.syms.len(),
        old(p).cies.len() == x.cies.len(),
    ensures
        match r {
            Ok(()) => with_cie(*x, indices@, gotpc, old(p)@, f as int) == Ok::<
                FrameView,
                RelocatableError,
            >(final(p)@),
            Err(e) => with_cie(*x, indices@, gotpc, old(p)@, f as int) == Err::<
                FrameView,
                RelocatableError,
            >(e),
        },
        final(p).cies.len() == old(p).cies.len(),
{
    proof {
        assert(x.fde_ok(x.fdes[f as int]));
        assert(x.cie_ok(x.cies[x.fdes[f as int].cie as int]));
    }
    let c: usize = x.fdes[f].cie;
    if !is_fde_live(x, f) || p.cies[c] != u32::MAX {
        return Ok(());
    }
    let cie: &Cie = &x.cies[c];
    let off: usize = p.data.len();
    if off as u128 + cie.data.len() as u128 >= u32::MAX as u128 {
        return Err(RelocatableError::TooLarge);
    }
    let ghost before = p@;
    let mut bytes_of: Vec<u8> = bytes::to_vec(cie.data.as_slice());
    match cie.personality {
        None => {},
        Some(s) => {
            let symnum: u32 = indices[s as usize];
            if symnum == u32::MAX {
                return Err(RelocatableError::PersonalityLost(s));
            }
            if cie.personality_offset as usize > cie.data.len() || cie.data.len()
                - (cie.personality_offset as usize) < 4 {
                return Err(RelocatableError::BadFrame);
            }
            bytes::put32(&mut bytes_of, cie.personality_offset as usize, 0);
            p.relocs.push(
                MachRel {
                    r_address: off as u32 + cie.personality_offset,
                    bits: symnum | 0x0d00_0000 | ((gotpc as u32) << 28),
                },
            );
        },
    }
    p.cies.set(c, off as u32);
    bytes::append(&mut p.data, bytes_of.as_slice());
    assert(p@ =~= with_cie(*x, indices@, gotpc, before, f as int)->Ok_0);
    Ok(())
}

/// Writes an FDE, as far as its function is live.
fn push_fde(ctx: &Context, i: usize, p: &mut Frame) -> (r: Result<(), RelocatableError>)
    requires
        ctx.wf(),
        i < ctx.inputs.fdes.len(),
        old(p).cies.len() == ctx.inputs.cies.len(),
    ensures
        match r {
            Ok(()) => with_fde(*ctx, old(p)@, i as int) == Ok::<FrameView, RelocatableError>(
                final(p)@,
            ),
            Err(e) => with_fde(*ctx, old(p)@, i as int) == Err::<FrameView, RelocatableError>(e),
        },
        final(p).cies.len() == old(p).cies.len(),
{
    let x: &Inputs = &ctx.inputs;
    proof {
        assert(x.fde_ok(x.fdes[i as int]));
    }
    if !is_fde_live(x, i) {
        return Ok(());
    }
    let f: &Fde = &x.fdes[i];
    let off: usize = p.data.len();
    if off as u128 + f.data.len() as u128 >= u32::MAX as u128 {
        return Err(RelocatableError::TooLarge);
    }
    let at: u32 = p.cies[f.cie];
    if f.data.len() < 16 || at as u64 > off as u64 + 4 {
        return Err(RelocatableError::BadFrame);
    }
    let ghost before = p@;
    let mut lsda: Option<(u32, u64, u8)> = None;
    if let Some(l) = f.lsda {
        let size: u8 = x.cies[f.cie].lsda_size;
        match find_leb_last(&f.data, 24) {
            Some(k) => {
                if (size != 4 && size != 8) || f.data.len() - k - 1 < size as usize {
                    return Err(RelocatableError::BadFrame);
                }
                let target: u64 = bytes::sum64(ctx.isec_addr(l.0), l.1 as u64);
                lsda = Some(((off + k + 1) as u32, target, size));
            },
            None => {
                return Err(RelocatableError::BadFrame);
            },
        }
    }
    let ghost want = with_fde(*ctx, before, i as int)->Ok_0;
    let mut bytes_of: Vec<u8> = bytes::to_vec(f.data.as_slice());
    let back: u32 = (off as u64 + 4 - at as u64) as u32;
    bytes::put32(&mut bytes_of, 4, back);
    bytes::append(&mut p.data, bytes_of.as_slice());
    let func: u64 = bytes::sum64(ctx.isec_addr(f.isec), f.func_offset as u64);
    p.patches.push((off as u32 + 8, func, 8));
    if let Some(t) = lsda {
        p.patches.push(t);
    }
    assert(p.patches@ =~= want.patches);
    assert(p@ =~= want);
    Ok(())
}

/// Builds the frame section.
fn build_frames(ctx: &Context, indices: &Vec<u32>, gotpc: u8) -> (r: Result<
    Frame,
    RelocatableError,
>)
    requires
        ctx.wf(),
        indices.len() == ctx.inputs.symtab.syms.len(),
    ensures
        match r {
            Ok(p) => frames_to(*ctx, indices@, gotpc, ctx.inputs.fdes.len() as int) == Ok::<
                FrameView,
                RelocatableError,
            >(p@),
            Err(e) => frames_to(*ctx, indices@, gotpc, ctx.inputs.fdes.len() as int) == Err::<
                FrameView,
                RelocatableError,
            >(e),
        },
{
    let x: &Inputs = &ctx.inputs;
    let mut p = Frame {
        data: Vec::new(),
        relocs: Vec::new(),
        patches: Vec::new(),
        cies: Vec::new(),
    };
    while p.cies.len() < x.cies.len()
        invariant
            p.cies.len() <= x.cies.len(),
            p.data.len() == 0,
            p.relocs.len() == 0,
            p.patches.len() == 0,
            forall|i: int| 0 <= i < p.cies.len() ==> #[trigger] p.cies[i] == u32::MAX,
        decreases x.cies.len() - p.cies.len(),
    {
        p.cies.push(u32::MAX);
    }
    assert(p@ =~= cies_to(*x, indices@, gotpc, 0)->Ok_0);
    let ghost last = x.fdes.len() as int;
    let mut n: usize = 0;
    while n < x.fdes.len()
        invariant
            ctx.wf(),
            *x == ctx.inputs,
            last == x.fdes.len(),
            indices.len() == x.symtab.syms.len(),
            n <= x.fdes.len(),
            p.cies.len() == x.cies.len(),
            cies_to(*x, indices@, gotpc, n as int) == Ok::<FrameView, RelocatableError>(p@),
        decreases x.fdes.len() - n,
    {
        match push_cie(x, indices, gotpc, n, &mut p) {
            Ok(()) => {},
            Err(e) => {
                proof {
                    lemma_cies_err(*x, indices@, gotpc, e, n + 1, last);
                    assert(frames_to(*ctx, indices@, gotpc, 0) == cies_to(
                        *x,
                        indices@,
                        gotpc,
                        last,
                    ));
                    lemma_frames_err(*ctx, indices@, gotpc, e, 0, last);
                }
                return Err(e);
            },
        }
        n += 1;
    }
    let mut k: usize = 0;
    while k < x.fdes.len()
        invariant
            ctx.wf(),
            *x == ctx.inputs,
            last == x.fdes.len(),
            indices.len() == x.symtab.syms.len(),
            k <= x.fdes.len(),
            p.cies.len() == x.cies.len(),
            frames_to(*ctx, indices@, gotpc, k as int) == Ok::<FrameView, RelocatableError>(p@),
        decreases x.fdes.len() - k,
    {
        match push_fde(ctx, k, &mut p) {
            Ok(()) => {},
            Err(e) => {
                proof {
                    lemma_frames_err(*ctx, indices@, gotpc, e, k + 1, last);
                }
                return Err(e);
            },
        }
        k += 1;
    }
    Ok(p)
}

/// The flags of a frame section: coalesced, not in the table of contents,
/// strippable and live support.
pub const FRAME_FLAGS: u32 = 0x6800_000b;

/// The section that holds the merged Objective-C image flags.
pub open spec fn image_info_section(flags: u32) -> ExtraView {
    ExtraView {
        segname: "__DATA".spec_bytes(),
        sectname: "__objc_imageinfo".spec_bytes(),
        flags: 0,
        data: bytes::le32(0) + bytes::le32(flags),
        relocs: Seq::empty(),
        patches: Seq::empty(),
    }
}

/// True when a live object has Objective-C image flags.
pub open spec fn has_image_info(x: Inputs) -> bool {
    exists|o: int|
        0 <= o < x.objs.len() && (#[trigger] x.objs[o]).is_alive && x.objs[o].objc_image_info
            is Some
}

/// The sections behind the merged ones: Objective-C image flags, compact
/// unwind entries and DWARF frames, each if there is any.
pub open spec fn extras_of<E: Arch>(
    ctx: Context,
    ords: Seq<u8>,
    indices: Seq<u32>,
    image_flags: u32,
) -> Result<Seq<ExtraView>, RelocatableError> {
    let info = if has_image_info(ctx.inputs) {
        seq![image_info_section(image_flags)]
    } else {
        Seq::empty()
    };
    match unwind_to(ctx, ords, indices, ctx.inputs.unwind_records.len() as int) {
        Err(e) => Err(e),
        Ok(u) => match frames_to(
            ctx,
            indices,
            E::info().reloc_gotpc,
            ctx.inputs.fdes.len() as int,
        ) {
            Err(e) => Err(e),
            Ok(f) => {
                let unwind = if u.data.len() > 0 {
                    seq![
                        ExtraView {
                            segname: "__LD".spec_bytes(),
                            sectname: "__compact_unwind".spec_bytes(),
                            flags: S_ATTR_DEBUG,
                            data: u.data,
                            relocs: u.relocs,
                            patches: Seq::empty(),
                        },
                    ]
                } else {
                    Seq::empty()
                };
                let frame = if f.data.len() > 0 {
                    seq![
                        ExtraView {
                            segname: "__TEXT".spec_bytes(),
                            sectname: "__eh_frame".spec_bytes(),
                            flags: FRAME_FLAGS,
                            data: f.data,
                            relocs: f.relocs,
                            patches: f.patches,
                        },
                    ]
                } else {
                    Seq::empty()
                };
                Ok(info + unwind + frame)
            },
        },
    }
}

/// Tests whether a live object has Objective-C image flags.
fn any_image_info(x: &Inputs) -> (r: bool)
    ensures
        r == has_image_info(*x),
{
    let mut o: usize = 0;
    while o < x.objs.len()
        invariant
            o <= x.objs.len(),
            forall|k: int|
                0 <= k < o ==> !((#[trigger] x.objs[k]).is_alive && x.objs[k].objc_image_info
                    is Some),
        decreases x.objs.len() - o,
    {
        if x.objs[o].is_alive && x.objs[o].objc_image_info.is_some() {
            return true;
        }
        o += 1;
    }
    false
}

/// Builds the sections behind the merged ones.
pub fn build_extras<E: Arch>(
    ctx: &Context,
    ords: &Vec<u8>,
    indices: &Vec<u32>,
    image_flags: u32,
) -> (r: Result<Vec<ExtraSection>, RelocatableError>)
    requires
        ctx.wf(),
        indices.len() == ctx.inputs.symtab.syms.len(),
    ensures
        match r {
            Ok(v) => extras_of::<E>(*ctx, ords@, indices@, image_flags) == Ok::<
                Seq<ExtraView>,
                RelocatableError,
            >(extra_views(v@)),
            Err(e) => extras_of::<E>(*ctx, ords@, indices@, image_flags) == Err::<
                Seq<ExtraView>,
                RelocatableError,
            >(e),
        },
{
    let mut v: Vec<ExtraSection> = Vec::new();
    if any_image_info(&ctx.inputs) {
        let mut data: Vec<u8> = Vec::new();
        bytes::push32(&mut data, 0);
        bytes::push32(&mut data, image_flags);
        let e = ExtraSection {
            segname: bytes::to_vec("__DATA".as_bytes()),
            sectname: bytes::to_vec("__objc_imageinfo".as_bytes()),
            flags: 0,
            data,
            relocs: Vec::new(),
            patches: Vec::new(),
        };
        assert(e@ =~= image_info_section(image_flags));
        v.push(e);
    }
    let ghost v0 = extra_views(v@);
    let (data, relocs): (Vec<u8>, Vec<MachRel>) = match build_unwind(ctx, ords, indices) {
        Ok(p) => p,
        Err(e) => {
            return Err(e);
        },
    };
    let f: Frame = match build_frames(ctx, indices, E::get_info().reloc_gotpc) {
        Ok(f) => f,
        Err(e) => {
            return Err(e);
        },
    };
    if data.len() > 0 {
        let e = ExtraSection {
            segname: bytes::to_vec("__LD".as_bytes()),
            sectname: bytes::to_vec("__compact_unwind".as_bytes()),
            flags: S_ATTR_DEBUG,
            data,
            relocs,
            patches: Vec::new(),
        };
        assert(e.patches@ =~= Seq::empty());
        v.push(e);
    }
    let ghost v1 = extra_views(v@);
    if f.data.len() > 0 {
        let e = ExtraSection {
            segname: bytes::to_vec("__TEXT".as_bytes()),
            sectname: bytes::to_vec("__eh_frame".as_bytes()),
            flags: FRAME_FLAGS,
            data: f.data,
            relocs: f.relocs,
            patches: f.patches,
        };
        v.push(e);
    }
    proof {
        let want = extras_of::<E>(*ctx, ords@, indices@, image_flags)->Ok_0;
        assert(extra_views(v@) =~= want);
    }
    Ok(v)
}

} // verus!
