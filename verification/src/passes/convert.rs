//! Passes that turn one kind of input into another: tentative definitions,
//! initializers, and the files that nothing needs.
use super::dead_strip::drop_dead;
use crate::arch::Arch;
use crate::context::Context;
use crate::input_sections::{
    InputSection, IsecView, Reloc, RelocTarget, NO_REPLACEMENT, UNSET,
};
use crate::inputs::{resolve_isec, Inputs};
use crate::macho::consts::{S_MOD_INIT_FUNC_POINTERS, S_ZEROFILL};
use crate::macho::{MachSection, SectionView};
use crate::symbol::{Origin, SymFlags, Symbol};
use crate::util::{bytes, order};
use vstd::prelude::*;
use vstd::string::*;

verus! {

/// True for a tentative definition that nothing replaced.
pub open spec fn is_tentative(s: Symbol) -> bool {
    s.flags.is_common && !s.has_definition()
}

/// How many of the first `n` symbols are tentative definitions.
pub open spec fn tentative_count(syms: Seq<Symbol>, n: int) -> int
    decreases n,
{
    if n <= 0 {
        0
    } else if is_tentative(syms[n - 1]) {
        tentative_count(syms, n - 1) + 1
    } else {
        tentative_count(syms, n - 1)
    }
}

/// The header of the section that holds a tentative definition.
pub open spec fn common_header(s: Symbol) -> SectionView {
    SectionView {
        raw: crate::macho::names32("__common".spec_bytes(), "__DATA".spec_bytes()),
        sectname: "__common".spec_bytes(),
        segname: "__DATA".spec_bytes(),
        addr: 0,
        size: s.value,
        offset: 0,
        p2align: s.common_p2align as u32,
        reloff: 0,
        nreloc: 0,
        flags: S_ZEROFILL,
        reserved1: 0,
        reserved2: 0,
        reserved3: 0,
    }
}

/// The subsection that holds a tentative definition.
pub open spec fn common_isec(s: Symbol, shndx: int) -> IsecView {
    IsecView {
        obj: UNSET,
        shndx: shndx as u32,
        p2align: s.common_p2align,
        input_addr: 0,
        size: s.value,
        data: Seq::empty(),
        relocs: Seq::empty(),
        osec: UNSET,
        output_offset: 0,
        is_alive: true,
        replacement: NO_REPLACEMENT,
        unwind_offset: 0,
        nunwind: 0,
    }
}

/// A tentative definition turned into a real one in subsection `isec`.
pub open spec fn defined_in(s: Symbol, isec: int) -> Symbol {
    Symbol {
        value: 0,
        flags: SymFlags { is_common: false, is_extern: true, ..s.flags },
        ..s.with_origin(Origin::Synthetic).with_isec(Some(isec as u32))
    }
}

/// A symbol after the conversion of those before it.
pub open spec fn converted(x: Inputs, i: int) -> Symbol {
    let s = x.symtab.syms[i];
    if is_tentative(s) {
        defined_in(s, x.isecs.len() + tentative_count(x.symtab.syms@, i))
    } else {
        s
    }
}

/// The subsections of the tentative definitions among the first `n` symbols.
pub open spec fn common_isecs(x: Inputs, n: int) -> Seq<IsecView>
    decreases n,
{
    if n <= 0 {
        Seq::empty()
    } else if is_tentative(x.symtab.syms[n - 1]) {
        common_isecs(x, n - 1).push(
            common_isec(
                x.symtab.syms[n - 1],
                x.synthetic_hdrs.len() + tentative_count(x.symtab.syms@, n - 1),
            ),
        )
    } else {
        common_isecs(x, n - 1)
    }
}

/// The headers of the sections of those.
pub open spec fn common_headers(x: Inputs, n: int) -> Seq<SectionView>
    decreases n,
{
    if n <= 0 {
        Seq::empty()
    } else if is_tentative(x.symtab.syms[n - 1]) {
        common_headers(x, n - 1).push(common_header(x.symtab.syms[n - 1]))
    } else {
        common_headers(x, n - 1)
    }
}

/// True when there is room for all tentative definitions.
pub open spec fn commons_fit(x: Inputs) -> bool {
    let n = tentative_count(x.symtab.syms@, x.symtab.syms.len() as int);
    x.isecs.len() + n < NO_REPLACEMENT && x.synthetic_hdrs.len() + n < UNSET
}

fn make_common_header(size: u64, p2align: u8) -> (r: MachSection)
    ensures
        forall|s: Symbol|
            s.value == size && s.common_p2align == p2align ==> r@ == #[trigger] common_header(s),
{
    MachSection {
        raw: crate::macho::encode_names("__common".as_bytes(), "__DATA".as_bytes()),
        sectname: bytes::to_vec("__common".as_bytes()),
        segname: bytes::to_vec("__DATA".as_bytes()),
        addr: 0,
        size,
        offset: 0,
        p2align: p2align as u32,
        reloff: 0,
        nreloc: 0,
        flags: S_ZEROFILL,
        reserved1: 0,
        reserved2: 0,
        reserved3: 0,
    }
}

fn make_common_isec(size: u64, p2align: u8, shndx: u32) -> (r: InputSection)
    ensures
        forall|s: Symbol|
            s.value == size && s.common_p2align == p2align ==> r@ == #[trigger] common_isec(
                s,
                shndx as int,
            ),
{
    let r = InputSection {
        obj: UNSET,
        shndx,
        p2align,
        input_addr: 0,
        size,
        data: Vec::new(),
        relocs: Vec::new(),
        osec: UNSET,
        output_offset: 0,
        is_alive: true,
        replacement: NO_REPLACEMENT,
        unwind_offset: 0,
        nunwind: 0,
    };
    assert(r.data@ =~= Seq::empty());
    assert(r.relocs@ =~= Seq::empty());
    r
}

fn count_tentative(syms: &Vec<Symbol>) -> (r: usize)
    ensures
        r == tentative_count(syms@, syms.len() as int),
        r <= syms.len(),
{
    let mut r: usize = 0;
    let mut n: usize = 0;
    while n < syms.len()
        invariant
            n <= syms.len(),
            r <= n,
            r == tentative_count(syms@, n as int),
        decreases syms.len() - n,
    {
        if syms[n].flags.is_common && !syms[n].is_defined() {
            r += 1;
        }
        n += 1;
    }
    r
}

proof fn lemma_count_grows(syms: Seq<Symbol>, a: int, b: int)
    requires
        0 <= a <= b,
    ensures
        0 <= tentative_count(syms, a) <= tentative_count(syms, b),
    decreases b,
{
    if a < b {
        lemma_count_grows(syms, a, b - 1);
    } else if a > 0 {
        lemma_count_grows(syms, a - 1, b - 1);
    }
}

/// Turns surviving tentative definitions into real definitions in zero-fill
/// sections. False, with nothing changed, when there are too many.
pub fn convert_common_symbols(x: &mut Inputs) -> (r: bool)
    requires
        old(x).wf(),
    ensures
        r == commons_fit(*old(x)),
        !r ==> *final(x) == *old(x),
        r ==> {
            let n = old(x).symtab.syms.len() as int;
            &&& crate::input_sections::isec_views(final(x).isecs@)
                == crate::input_sections::isec_views(old(x).isecs@) + common_isecs(*old(x), n)
            &&& crate::arch::section_views(final(x).synthetic_hdrs@) == crate::arch::section_views(
                old(x).synthetic_hdrs@,
            ) + common_headers(*old(x), n)
            &&& final(x).symtab.syms@ == Seq::new(n as nat, |i: int| converted(*old(x), i))
            &&& final(x).symtab.shards == old(x).symtab.shards
            &&& final(x).objs == old(x).objs
            &&& final(x).unwind_records == old(x).unwind_records
            &&& final(x).cies == old(x).cies
            &&& final(x).fdes == old(x).fdes
        },
        final(x).wf(),
{
    let ghost start = *x;
    let ghost total = x.symtab.syms.len() as int;
    let count: usize = count_tentative(&x.symtab.syms);
    if x.isecs.len() as u128 + count as u128 >= 0xffff_ffff || x.synthetic_hdrs.len() as u128
        + count as u128 >= 0xffff_ffff {
        return false;
    }
    assert(crate::input_sections::isec_views(x.isecs@) =~= crate::input_sections::isec_views(
        start.isecs@,
    ) + common_isecs(start, 0));
    assert(crate::arch::section_views(x.synthetic_hdrs@) =~= crate::arch::section_views(
        start.synthetic_hdrs@,
    ) + common_headers(start, 0));
    let mut n: usize = 0;
    while n < x.symtab.syms.len()
        invariant
            start.wf(),
            commons_fit(start),
            total == start.symtab.syms.len(),
            n <= x.symtab.syms.len(),
            x.symtab.syms.len() == total,
            *x == (Inputs {
                isecs: x.isecs,
                synthetic_hdrs: x.synthetic_hdrs,
                symtab: x.symtab,
                ..start
            }),
            x.symtab.shards == start.symtab.shards,
            x.isecs.len() == start.isecs.len() + tentative_count(start.symtab.syms@, n as int),
            x.synthetic_hdrs.len() == start.synthetic_hdrs.len() + tentative_count(
                start.symtab.syms@,
                n as int,
            ),
            start.isecs@.is_prefix_of(x.isecs@),
            start.synthetic_hdrs@.is_prefix_of(x.synthetic_hdrs@),
            forall|i: int|
                start.isecs.len() <= i < x.isecs.len() ==> {
                    let s = #[trigger] x.isecs[i];
                    &&& s.obj == UNSET
                    &&& s.shndx < x.synthetic_hdrs.len()
                    &&& s.relocs@.len() == 0
                    &&& s.replacement == NO_REPLACEMENT
                    &&& s.nunwind == 0
                },
            crate::input_sections::isec_views(x.isecs@) == crate::input_sections::isec_views(
                start.isecs@,
            ) + common_isecs(start, n as int),
            crate::arch::section_views(x.synthetic_hdrs@) == crate::arch::section_views(
                start.synthetic_hdrs@,
            ) + common_headers(start, n as int),
            forall|i: int| 0 <= i < n ==> #[trigger] x.symtab.syms[i] == converted(start, i),
            forall|i: int|
                n <= i < x.symtab.syms.len() ==> #[trigger] x.symtab.syms[i]
                    == start.symtab.syms[i],
        decreases x.symtab.syms.len() - n,
    {
        let ghost s0 = start.symtab.syms[n as int];
        assert(x.symtab.syms[n as int] == s0);
        let s: &Symbol = &x.symtab.syms[n];
        if s.flags.is_common && !s.is_defined() {
            proof {
                lemma_count_grows(start.symtab.syms@, n + 1, total);
                lemma_count_grows(start.symtab.syms@, 0, n as int);
            }
            let size: u64 = s.value;
            let p2align: u8 = s.common_p2align;
            let hdr: MachSection = make_common_header(size, p2align);
            let isec: InputSection = make_common_isec(
                size,
                p2align,
                x.synthetic_hdrs.len() as u32,
            );
            let at: u32 = x.isecs.len() as u32;
            let ghost iv = crate::input_sections::isec_views(x.isecs@);
            let ghost hv = crate::arch::section_views(x.synthetic_hdrs@);
            let ghost h0 = hdr@;
            let ghost i0 = isec@;
            assert(h0 == common_header(s0));
            assert(i0 == common_isec(s0, x.synthetic_hdrs.len() as int));
            x.synthetic_hdrs.push(hdr);
            x.isecs.push(isec);
            let sym: &mut Symbol = &mut x.symtab.syms[n];
            sym.set_origin(Origin::Synthetic);
            sym.set_isec(Some(at));
            sym.value = 0;
            sym.flags.is_common = false;
            sym.flags.is_extern = true;
            proof {
                assert(crate::input_sections::isec_views(x.isecs@) =~= iv.push(i0));
                assert(crate::arch::section_views(x.synthetic_hdrs@) =~= hv.push(h0));
                let a = crate::input_sections::isec_views(start.isecs@);
                let b = common_isecs(start, n as int);
                assert((a + b).push(i0) =~= a + b.push(i0));
                let c = crate::arch::section_views(start.synthetic_hdrs@);
                let d = common_headers(start, n as int);
                assert((c + d).push(h0) =~= c + d.push(h0));
                assert(x.symtab.syms[n as int] == converted(start, n as int));
            }
        }
        n += 1;
    }
    assert(x.symtab.syms@ =~= Seq::new(total as nat, |i: int| converted(start, i)));
    proof {
        assert forall|i: int| 0 <= i < start.isecs.len() implies crate::inputs::same_part(
            start.isecs[i],
            #[trigger] x.isecs[i],
        ) && (x.isecs[i].replacement == NO_REPLACEMENT || x.isecs[i].replacement
            < x.isecs.len()) by {
            assert(start.isec_ok(start.isecs[i]));
            assert(x.isecs@[i] == start.isecs@[i]);
        }
        assert forall|i: int| 0 <= i < x.symtab.syms.len() implies x.sym_ok(
            #[trigger] x.symtab.syms[i],
        ) by {
            assert(start.sym_ok(start.symtab.syms[i]));
            lemma_count_grows(start.symtab.syms@, 0, i);
            lemma_count_grows(start.symtab.syms@, i + 1, total);
        }
        crate::inputs::lemma_wf_grown(start, *x);
    }
    true
}

/// Where an initializer pointer leads: the subsection and the offset in it.
pub open spec fn init_target(x: Inputs, obj: u32, rel: Reloc) -> Option<(usize, u64)> {
    match rel.refers_to() {
        RelocTarget::Sym(i) => {
            let s = x.symtab.syms[x.objs[obj as int].syms[i as int] as int];
            match s.section() {
                Some(k) => Some(
                    (crate::inputs::survivor(x.isecs@, k as int) as usize, s.value),
                ),
                None => None,
            }
        },
        RelocTarget::Section(k) => Some(
            (
                crate::inputs::survivor(x.isecs@, k as int) as usize,
                bytes::word64(rel.addend as int),
            ),
        ),
    }
}

/// The offsets of relocations.
pub open spec fn reloc_offsets(relocs: Seq<Reloc>) -> Seq<u64> {
    relocs.map_values(|r: Reloc| r.offset as u64)
}

/// The initializers of the first `n` relocations in an order.
pub open spec fn inits_in(x: Inputs, s: InputSection, ord: Seq<usize>, n: int) -> Seq<(usize, u64)>
    decreases n,
{
    if n <= 0 {
        Seq::empty()
    } else {
        match init_target(x, s.obj, s.relocs[ord[n - 1] as int]) {
            Some(t) => inits_in(x, s, ord, n - 1).push(t),
            None => inits_in(x, s, ord, n - 1),
        }
    }
}

/// The initializers of a subsection of pointers, in the order of the
/// pointers.
pub open spec fn isec_inits(x: Inputs, s: InputSection) -> Seq<(usize, u64)> {
    let ord = order::stable_order_of(reloc_offsets(s.relocs@));
    inits_in(x, s, ord, ord.len() as int)
}

/// True for a live subsection of initializer pointers.
pub open spec fn holds_inits(x: Inputs, i: int) -> bool {
    x.isecs[i].is_alive && x.header(x.isecs[i]).kind() == S_MOD_INIT_FUNC_POINTERS
}

/// The initializers of the first `n` subsections.
pub open spec fn inits_to(x: Inputs, n: int) -> Seq<(usize, u64)>
    decreases n,
{
    if n <= 0 {
        Seq::empty()
    } else if holds_inits(x, n - 1) {
        inits_to(x, n - 1) + isec_inits(x, x.isecs[n - 1])
    } else {
        inits_to(x, n - 1)
    }
}

/// The subsections without those of initializer pointers.
pub open spec fn without_inits(x: Inputs) -> Seq<InputSection> {
    Seq::new(
        x.isecs@.len(),
        |i: int|
            if holds_inits(x, i) {
                InputSection { is_alive: false, ..x.isecs[i] }
            } else {
                x.isecs[i]
            },
    )
}

/// True when initializers are listed by offset: with -init_offsets, and with
/// chained fixups.
pub open spec fn lists_inits<E: Arch>(ctx: Context) -> bool {
    ctx.args.sw.init_offsets || ctx.chained::<E>()
}

fn push_inits(x: &Inputs, id: usize, out: &mut Vec<(usize, u64)>)
    requires
        x.wf(),
        id < x.isecs.len(),
    ensures
        final(out)@ == old(out)@ + isec_inits(*x, x.isecs[id as int]),
        (forall|k: int| 0 <= k < old(out).len() ==> (#[trigger] old(out)[k]).0 < x.isecs.len())
            ==> (forall|k: int|
            0 <= k < final(out).len() ==> (#[trigger] final(out)[k]).0 < x.isecs.len()),
{
    let s: &InputSection = &x.isecs[id];
    let ghost start = out@;
    let mut keys: Vec<u64> = Vec::new();
    while keys.len() < s.relocs.len()
        invariant
            keys.len() <= s.relocs.len(),
            forall|i: int| 0 <= i < keys.len() ==> #[trigger] keys[i] == s.relocs[i].offset,
        decreases s.relocs.len() - keys.len(),
    {
        keys.push(s.relocs[keys.len()].offset as u64);
    }
    assert(keys@ =~= reloc_offsets(s.relocs@));
    let ord: Vec<usize> = order::stable_order(keys.as_slice());
    assert(start + Seq::<(usize, u64)>::empty() =~= start);
    let mut n: usize = 0;
    while n < ord.len()
        invariant
            x.wf(),
            id < x.isecs.len(),
            *s == x.isecs[id as int],
            n <= ord.len(),
            forall|i: int| 0 <= i < ord.len() ==> (#[trigger] ord[i]) < s.relocs.len(),
            out@ == start + inits_in(*x, *s, ord@, n as int),
            (forall|k: int| 0 <= k < start.len() ==> (#[trigger] start[k]).0 < x.isecs.len())
                ==> (forall|k: int|
                0 <= k < out.len() ==> (#[trigger] out[k]).0 < x.isecs.len()),
        decreases ord.len() - n,
    {
        let rel: Reloc = s.relocs[ord[n]];
        let ghost head = inits_in(*x, *s, ord@, n as int);
        proof {
            crate::inputs::lemma_wf_redirects(*x);
            assert(x.isec_ok(x.isecs[id as int]));
            assert(x.reloc_ok(s.obj, s.relocs[ord[n as int] as int]));
            assert(x.obj_ok(x.objs[s.obj as int]));
        }
        let target: Option<(usize, u64)> = match rel.target() {
            RelocTarget::Sym(i) => {
                let sid: usize = x.objs[s.obj as usize].syms[i as usize] as usize;
                proof {
                    assert(x.sym_ok(x.symtab.syms[sid as int]));
                }
                let sym: &Symbol = &x.symtab.syms[sid];
                match sym.isec() {
                    Some(k) => Some((resolve_isec(&x.isecs, k as usize), sym.value)),
                    None => None,
                }
            },
            RelocTarget::Section(k) => Some(
                (resolve_isec(&x.isecs, k as usize), bytes::from_signed64(rel.addend)),
            ),
        };
        assert(target == init_target(*x, s.obj, rel));
        if let Some(t) = target {
            out.push(t);
            assert((start + head).push(t) =~= start + head.push(t));
        }
        n += 1;
    }
}

/// Replaces absolute initializer pointers with a list of initializers that
/// run by offset.
pub fn convert_init_offsets<E: Arch>(ctx: &mut Context)
    requires
        old(ctx).inputs.wf(),
        forall|k: int|
            0 <= k < old(ctx).init_funcs.len() ==> (#[trigger] old(ctx).init_funcs[k]).0
                < old(ctx).inputs.isecs.len(),
    ensures
        !lists_inits::<E>(*old(ctx)) ==> *final(ctx) == *old(ctx),
        lists_inits::<E>(*old(ctx)) ==> {
            let x = old(ctx).inputs;
            &&& final(ctx).init_funcs@ == old(ctx).init_funcs@ + inits_to(x, x.isecs.len() as int)
            &&& final(ctx).inputs.isecs@ == without_inits(x)
            &&& final(ctx).inputs == (Inputs { isecs: final(ctx).inputs.isecs, ..x })
            &&& *final(ctx) == (Context {
                inputs: final(ctx).inputs,
                init_funcs: final(ctx).init_funcs,
                ..*old(ctx)
            })
        },
        final(ctx).inputs.wf(),
        forall|k: int|
            0 <= k < final(ctx).init_funcs.len() ==> (#[trigger] final(ctx).init_funcs[k]).0
                < final(ctx).inputs.isecs.len(),
{
    if !ctx.args.sw.init_offsets && !ctx.use_chained_fixups::<E>() {
        return ;
    }
    let ghost start = *ctx;
    let ghost x = ctx.inputs;
    let ghost first = ctx.init_funcs@;
    let mut keep: Vec<bool> = Vec::new();
    let mut inits: Vec<(usize, u64)> = Vec::new();
    assert(inits@ =~= Seq::empty());
    while keep.len() < ctx.inputs.isecs.len()
        invariant
            *ctx == start,
            ctx.inputs.wf(),
            x == ctx.inputs,
            keep.len() <= ctx.inputs.isecs.len(),
            forall|i: int| 0 <= i < keep.len() ==> #[trigger] keep[i] == !holds_inits(x, i),
            inits@ == inits_to(x, keep.len() as int),
            forall|k: int| 0 <= k < inits.len() ==> (#[trigger] inits[k]).0 < x.isecs.len(),
        decreases ctx.inputs.isecs.len() - keep.len(),
    {
        let i: usize = keep.len();
        let holds: bool = ctx.inputs.isecs[i].is_alive && ctx.inputs.hdr_of(i).section_type()
            == S_MOD_INIT_FUNC_POINTERS;
        if holds {
            push_inits(&ctx.inputs, i, &mut inits);
        }
        keep.push(!holds);
    }
    let mut k: usize = 0;
    assert(first + inits@.take(0) =~= first);
    while k < inits.len()
        invariant
            k <= inits.len(),
            *ctx == (Context { init_funcs: ctx.init_funcs, ..start }),
            ctx.init_funcs@ == first + inits@.take(k as int),
        decreases inits.len() - k,
    {
        ctx.init_funcs.push(inits[k]);
        assert(first + inits@.take(k + 1) =~= (first + inits@.take(k as int)).push(
            inits@[k as int],
        ));
        k += 1;
    }
    assert(inits@.take(k as int) =~= inits@);
    let mut n: usize = 0;
    while n < ctx.inputs.isecs.len()
        invariant
            n <= ctx.inputs.isecs.len(),
            keep.len() == x.isecs.len(),
            ctx.inputs.isecs.len() == x.isecs.len(),
            x == start.inputs,
            ctx.inputs == (Inputs { isecs: ctx.inputs.isecs, ..x }),
            *ctx == (Context { inputs: ctx.inputs, init_funcs: ctx.init_funcs, ..start }),
            ctx.init_funcs@ == first + inits@,
            forall|i: int| 0 <= i < keep.len() ==> #[trigger] keep[i] == !holds_inits(x, i),
            forall|i: int|
                0 <= i < n ==> #[trigger] ctx.inputs.isecs[i] == without_inits(x)[i],
            forall|i: int|
                n <= i < ctx.inputs.isecs.len() ==> #[trigger] ctx.inputs.isecs[i] == x.isecs[i],
        decreases ctx.inputs.isecs.len() - n,
    {
        if !keep[n] {
            ctx.inputs.isecs[n].is_alive = false;
        }
        n += 1;
    }
    assert(ctx.inputs.isecs@ =~= without_inits(x));
    proof {
        assert forall|i: int| 0 <= i < x.isecs.len() implies crate::inputs::same_part(
            x.isecs[i],
            #[trigger] ctx.inputs.isecs[i],
        ) && (ctx.inputs.isecs[i].replacement == NO_REPLACEMENT || ctx.inputs.isecs[i].replacement
            < x.isecs.len()) by {
            assert(x.isec_ok(x.isecs[i]));
            assert(ctx.inputs.isecs@[i] == without_inits(x)[i]);
        }
        assert forall|i: int| 0 <= i < x.symtab.syms.len() implies ctx.inputs.sym_ok(
            #[trigger] ctx.inputs.symtab.syms[i],
        ) by {
            assert(x.sym_ok(x.symtab.syms[i]));
        }
        crate::inputs::lemma_wf_grown(x, ctx.inputs);
        assert forall|k: int| 0 <= k < ctx.init_funcs.len() implies (
        #[trigger] ctx.init_funcs[k]).0 < x.isecs.len() by {
            if k < first.len() {
                assert(start.init_funcs[k].0 < x.isecs.len());
            } else {
                assert(ctx.init_funcs@[k] == inits@[k - first.len()]);
                assert(inits[k - first.len()].0 < x.isecs.len());
            }
        }
    }
}

/// Which subsections stay: the live ones of live files.
pub open spec fn of_live_files(x: Inputs) -> Seq<bool> {
    Seq::new(
        x.isecs@.len(),
        |i: int|
            x.isecs[i].is_alive && (x.isecs[i].obj == UNSET
                || x.objs[x.isecs[i].obj as int].is_alive),
    )
}

/// Hides the subsections, unwind records and FDEs of files that resolution
/// left dead.
pub fn remove_unreachable_files(x: &mut Inputs)
    requires
        old(x).wf(),
        old(x).fdes_exist(),
    ensures
        ({
            let live = of_live_files(*old(x));
            let marked = super::dead_strip::stripped(old(x).isecs@, live);
            let kept = super::dead_strip::fdes_kept(old(x).fdes@, live);
            let records = super::dead_strip::live_records(
                old(x).unwind_records@,
                marked,
                kept,
                old(x).unwind_records.len() as int,
            );
            &&& final(x).isecs@ == super::dead_strip::refreshed(marked, records, 0)
            &&& final(x).fdes@ == crate::util::lists::kept(old(x).fdes@, kept)
            &&& final(x).unwind_records@ == records
        }),
        final(x).objs == old(x).objs,
        final(x).symtab == old(x).symtab,
        final(x).synthetic_hdrs == old(x).synthetic_hdrs,
        final(x).cies == old(x).cies,
        final(x).wf(),
        final(x).fdes_exist(),
{
    let mut live: Vec<bool> = Vec::new();
    while live.len() < x.isecs.len()
        invariant
            x.wf(),
            *x == *old(x),
            live.len() <= x.isecs.len(),
            live@ =~= of_live_files(*x).take(live.len() as int),
        decreases x.isecs.len() - live.len(),
    {
        let i: usize = live.len();
        proof {
            assert(x.isec_ok(x.isecs[i as int]));
        }
        let s: &InputSection = &x.isecs[i];
        let l: bool = s.is_alive && (s.obj == UNSET || x.objs[s.obj as usize].is_alive);
        live.push(l);
    }
    assert(live@ =~= of_live_files(*x));
    drop_dead(x, &live);
}

} // verus!
