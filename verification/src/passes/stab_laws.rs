//! What the debug notes of an object say.
use super::stabs::{object_stabs, symbol_stabs, symbols_stabs};
use crate::inputs::{survivor, Inputs};
use crate::output_chunks::string_table::NamedView;
use crate::symbol::Origin;
use vstd::prelude::*;
use vstd::string::*;

verus! {

/// A function that an object defines in a subsection that stays is noted by
/// a pair of entries: one under its name, in its section, then its size.
pub proof fn lemma_function_noted(x: Inputs, ords: Seq<u8>, o: int, k: int)
    requires
        0 <= o < x.objs.len(),
        0 <= k < x.objs[o].nlists.len(),
        x.objs[o].nlists[k].n_type & 0xe0 == 0,
        ({
            let s = x.symtab.syms[x.objs[o].syms[k] as int];
            &&& s.defined_by() == Origin::Obj(o as u32)
            &&& s.name@.len() > 0
            &&& s.name@[0] != 0x4c
            &&& s.name@[0] != 0x6c
            &&& s.section() matches Some(i) && {
                let isec = x.isecs[survivor(x.isecs@, i as int)];
                &&& isec.is_alive
                &&& x.header(isec).segname == "__TEXT".spec_bytes()
                &&& x.header(isec).flags & 0x8000_0400 != 0
            }
        }),
    ensures
        ({
            let id = x.objs[o].syms[k];
            let s = x.symtab.syms[id as int];
            let v = symbol_stabs(x, ords, o, k);
            &&& v.len() == 2
            &&& v[0].ent.n_type == 0x24 && v[0].name == s.name@ && v[0].sym == Some(id)
            &&& v[1].ent.n_type == 0x24 && v[1].sym is None
            &&& s.section() matches Some(i) && {
                let isec = x.isecs[survivor(x.isecs@, i as int)];
                &&& isec.osec < ords.len() ==> v[0].ent.n_sect == ords[isec.osec as int]
                &&& v[1].ent.n_value == isec.size
            }
        }),
{
    assert(0x8000_0000u32 | 0x0000_0400u32 == 0x8000_0400u32) by (bit_vector);
}

proof fn lemma_symbols_split(x: Inputs, ords: Seq<u8>, o: int, n: int, k: int)
    requires
        0 <= k < n,
    ensures
        symbols_stabs(x, ords, o, n).len() >= symbols_stabs(x, ords, o, k + 1).len(),
        symbols_stabs(x, ords, o, k + 1).len() == symbols_stabs(x, ords, o, k).len()
            + symbol_stabs(x, ords, o, k).len(),
        forall|j: int|
            0 <= j < symbol_stabs(x, ords, o, k).len() ==> symbols_stabs(
                x,
                ords,
                o,
                n,
            )[symbols_stabs(x, ords, o, k).len() + j] == #[trigger] symbol_stabs(x, ords, o, k)[j],
    decreases n,
{
    if k + 1 < n {
        lemma_symbols_split(x, ords, o, n - 1, k);
    }
}

/// True when entries stand in one piece behind the first two and in front of
/// the last entry of a list.
pub open spec fn stands_at(v: Seq<NamedView>, at: int, part: Seq<NamedView>) -> bool {
    2 <= at && at + part.len() < v.len() && v.subrange(at, at + part.len()) == part
}

/// The notes of an object with debug information stand between a start and
/// an end entry, behind an entry that names the object file. An object
/// without has none.
pub proof fn lemma_object_noted(
    x: Inputs,
    ords: Seq<u8>,
    o: int,
    cpusubtype: u32,
    cwd: Seq<u8>,
    prefix: Option<Seq<u8>>,
)
    requires
        0 <= o < x.objs.len(),
    ensures
        ({
            let obj = x.objs[o];
            let v = object_stabs(x, ords, o, cpusubtype, cwd, prefix);
            if obj.has_debug_info && obj.is_alive {
                &&& v.len() >= 3
                &&& v[0].ent.n_type == 0x64 && v.last().ent.n_type == 0x64
                &&& v[0].ent.n_strx != v.last().ent.n_strx
                &&& v[1].ent.n_type == 0x66 && v[1].ent.n_desc == 1
                &&& v[1].ent.n_sect == cpusubtype % 256
                &&& obj.name@.len() > 0 && obj.name@[0] == 0x2f && prefix is None ==> v[1].name
                    == obj.name@
                &&& obj.name@.len() > 0 && obj.name@[0] != 0x2f && obj.parent is None && prefix
                    is None ==> v[1].name == cwd + seq![0x2fu8] + obj.name@
            } else {
                v.len() == 0
            }
        }),
{
    let obj = x.objs[o];
    let v = object_stabs(x, ords, o, cpusubtype, cwd, prefix);
    let n = obj.nlists.len() as int;
    let all = symbols_stabs(x, ords, o, n);
    if obj.has_debug_info && obj.is_alive {
        assert(v.len() == all.len() + 3);
        assert(v[0].ent.n_strx == 2 && v.last().ent.n_strx == 1);
        assert(v[1].ent.n_sect == (cpusubtype % 256) as u8);
        assert(cwd.push(0x2f) + obj.name@ =~= cwd + seq![0x2fu8] + obj.name@);
    }
}

/// The notes of an object with debug information hold those of each of its
/// symbols, in one piece.
pub proof fn lemma_symbol_noted(
    x: Inputs,
    ords: Seq<u8>,
    o: int,
    cpusubtype: u32,
    cwd: Seq<u8>,
    prefix: Option<Seq<u8>>,
    k: int,
)
    requires
        0 <= o < x.objs.len(),
        0 <= k < x.objs[o].nlists.len(),
        x.objs[o].has_debug_info,
        x.objs[o].is_alive,
    ensures
        exists|at: int| #[trigger]
            stands_at(
                object_stabs(x, ords, o, cpusubtype, cwd, prefix),
                at,
                symbol_stabs(x, ords, o, k),
            ),
{
    let v = object_stabs(x, ords, o, cpusubtype, cwd, prefix);
    let n = x.objs[o].nlists.len() as int;
    let all = symbols_stabs(x, ords, o, n);
    let one = symbol_stabs(x, ords, o, k);
    let at = 2 + symbols_stabs(x, ords, o, k).len() as int;
    lemma_symbols_split(x, ords, o, n, k);
    let part = v.subrange(at, at + one.len());
    assert forall|j: int| 0 <= j < one.len() implies #[trigger] part[j] == one[j] by {
        assert(v[at + j] == all[at - 2 + j]);
    }
    assert(part =~= one);
    assert(stands_at(v, at, one));
}

} // verus!
