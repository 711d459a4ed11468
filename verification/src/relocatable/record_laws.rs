//! The relocation records of a merged object say what its relocations are.
use super::contents::{halvings, pcrel_bit, records_of};
use crate::arch::Arch;
use crate::input_sections::{InputSection, Reloc, RelocTarget};
use crate::inputs::Inputs;
use crate::macho::MachRel;
use crate::util::bytes;
use vstd::prelude::*;

verus! {

/// True when a record is about the field of a relocation of a subsection.
/// The bits are those of the file format: the target in the low 24, then the
/// relative bit, two for the field's size, one that tells symbols from
/// sections, and the type in the top four.
pub open spec fn records_field(r: MachRel, s: InputSection, rel: Reloc) -> bool {
    let p = r.bits as int / 0x200_0000 % 4;
    &&& r.r_address == s.output_offset + rel.offset
    &&& (r.bits as int / 0x100_0000 % 2 == 1) == rel.is_pcrel
    &&& rel.size == (if p == 0 {
        1int
    } else if p == 1 {
        2
    } else if p == 2 {
        4
    } else {
        8
    })
    &&& r.bits as int / 0x1000_0000 == rel.r_type
}

proof fn lemma_bits(idx: u32, c: u32, p: u32, t: u32, e: u32)
    requires
        idx < 0x100_0000,
        c == 0 || c == 0x100_0000,
        p < 4,
        t < 16,
        e == 0 || e == 0x800_0000,
    ensures
        (idx | (c | (p << 25) | (t << 28)) | e) == idx + c + 0x200_0000 * p + e + 0x1000_0000 * t,
{
    assert((idx | (c | (p << 25) | (t << 28)) | e) == idx + c + 0x200_0000 * p + e + 0x1000_0000
        * t) by (bit_vector)
        requires
            idx < 0x100_0000,
            c == 0 || c == 0x100_0000,
            p < 4,
            t < 16,
            e == 0 || e == 0x800_0000,
    ;
}

/// The parts of a record's bits.
proof fn lemma_parts(bits: int, idx: int, c: int, p: int, t: int, e: int)
    requires
        0 <= idx < 0x100_0000,
        0 <= c < 2,
        0 <= p < 4,
        0 <= t < 16,
        0 <= e < 2,
        bits == idx + 0x100_0000 * c + 0x200_0000 * p + 0x800_0000 * e + 0x1000_0000 * t,
    ensures
        bits % 0x100_0000 == idx,
        bits / 0x100_0000 % 2 == c,
        bits / 0x200_0000 % 4 == p,
        bits / 0x800_0000 % 2 == e,
        bits / 0x1000_0000 == t,
{
    assert(bits / 0x100_0000 == c + 2 * p + 8 * e + 16 * t);
    assert(bits / 0x200_0000 == p + 4 * e + 8 * t);
    assert(bits / 0x800_0000 == e + 2 * t);
}

/// The bits of an addend record hold the addend's low bits and the type.
proof fn lemma_addend_bits(addend: i64, t: u32)
    ensures
        ({
            let bits = (bytes::word32(addend as int) & 0xff_ffff) | 0x400_0000 | (t << 28);
            &&& (bits - addend) % 0x100_0000 == 0
            &&& t < 16 ==> bits as int / 0x1000_0000 == t
        }),
{
    let a = bytes::word32(addend as int);
    let low = a & 0xff_ffff;
    let bits = low | 0x400_0000 | (t << 28);
    assert(low == a % 0x100_0000 && bits % 0x100_0000 == a % 0x100_0000 && (t < 16 ==> bits
        / 0x1000_0000 == t)) by (bit_vector)
        requires
            low == a & 0xff_ffff,
            bits == low | 0x400_0000 | (t << 28),
    ;
    assert((a - addend) % 0x100_0000 == 0) by {
        reveal(bytes::word32);
    }
}

proof fn lemma_size(size: u8)
    requires
        size == 1 || size == 2 || size == 4 || size == 8,
    ensures
        halvings(1) == 0,
        halvings(2) == 1,
        halvings(4) == 2,
        halvings(8) == 3,
        halvings(size) < 4,
{
    reveal_with_fuel(halvings, 5);
}

/// A relocation of a symbol becomes a record of the symbol's index in the
/// merged table, about the same field, and behind one that holds the addend
/// where the architecture wants that.
pub proof fn lemma_symbol_recorded<E: Arch>(
    x: Inputs,
    ords: Seq<u8>,
    indices: Seq<u32>,
    s: InputSection,
    rel: Reloc,
    k: u32,
)
    requires
        rel.refers_to() == RelocTarget::Sym(k),
        rel.size == 1 || rel.size == 2 || rel.size == 4 || rel.size == 8,
        rel.r_type < 16,
        s.output_offset + rel.offset <= u32::MAX,
        indices[x.objs[s.obj as int].syms[k as int] as int] < 0x100_0000,
    ensures
        ({
            let index = indices[x.objs[s.obj as int].syms[k as int] as int];
            let added = rel.addend != 0 && E::addend_record(rel.r_type);
            &&& records_of::<E>(x, ords, indices, s, rel) matches Ok(v) && v.len() == (if added {
                2int
            } else {
                1
            }) && records_field(v.last(), s, rel) && v.last().bits as int % 0x100_0000 == index
                && v.last().bits as int / 0x800_0000 % 2 == 1 && (added ==> v[0].r_address
                == v.last().r_address && (v[0].bits as int - rel.addend) % 0x100_0000 == 0 && (
            E::info().reloc_addend < 16 ==> v[0].bits as int / 0x1000_0000
                == E::info().reloc_addend))
        }),
{
    let index = indices[x.objs[s.obj as int].syms[k as int] as int];
    lemma_size(rel.size);
    lemma_bits(
        index,
        pcrel_bit(rel.is_pcrel),
        halvings(rel.size),
        rel.r_type as u32,
        0x800_0000,
    );
    assert(bytes::word32(s.output_offset + rel.offset) == s.output_offset + rel.offset) by {
        reveal(bytes::word32);
    }
    lemma_addend_bits(rel.addend, E::info().reloc_addend as u32);
    let v = records_of::<E>(x, ords, indices, s, rel)->Ok_0;
    lemma_parts(
        v.last().bits as int,
        index as int,
        if rel.is_pcrel {
            1
        } else {
            0
        },
        halvings(rel.size) as int,
        rel.r_type as int,
        1,
    );
}

/// A relocation of a section becomes one record about the same field, which
/// is not marked as a symbol's.
pub proof fn lemma_section_recorded<E: Arch>(
    x: Inputs,
    ords: Seq<u8>,
    indices: Seq<u32>,
    s: InputSection,
    rel: Reloc,
    t: u32,
)
    requires
        rel.refers_to() == RelocTarget::Section(t),
        rel.size == 1 || rel.size == 2 || rel.size == 4 || rel.size == 8,
        rel.r_type < 16,
        s.output_offset + rel.offset <= u32::MAX,
    ensures
        records_of::<E>(x, ords, indices, s, rel) matches Ok(v) && v.len() == 1 && records_field(
            v[0],
            s,
            rel,
        ) && v[0].bits as int / 0x800_0000 % 2 == 0 && v[0].bits as int % 0x100_0000
            == super::extras::home_ordinal(x, ords, t as int),
{
    let o = super::extras::home_ordinal(x, ords, t as int) as u32;
    lemma_size(rel.size);
    let c = pcrel_bit(rel.is_pcrel);
    let p = halvings(rel.size);
    let k = rel.r_type as u32;
    lemma_bits(o, c, p, k, 0);
    assert(o | (c | (p << 25) | (k << 28)) == (o | (c | (p << 25) | (k << 28)) | 0)) by (bit_vector);
    lemma_parts(
        (o | (c | (p << 25) | (k << 28))) as int,
        o as int,
        if rel.is_pcrel {
            1
        } else {
            0
        },
        p as int,
        k as int,
        0,
    );
    assert(bytes::word32(s.output_offset + rel.offset) == s.output_offset + rel.offset) by {
        reveal(bytes::word32);
    }
}

} // verus!
