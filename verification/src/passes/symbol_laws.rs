//! What the output says of symbols: in its symbol table, in its export trie,
//! and in the slots and reports that references lead to.
use super::slots::{isec_needs, lists_of, met, needs_to};
use super::symtab::{global_entry, import_entry, ordinals_of, ordinals_to, sections_in};
use super::tables::export_of;
use super::undefined::{errors_to, left_to_loader};
use super::weak::{after_hiding, marks_to, obj_marks, with_copy, Copied};
use crate::arch::{Arch, RelocClass};
use crate::args::Args;
use crate::context::Context;
use crate::input_sections::{InputSection, Reloc, RelocTarget};
use crate::inputs::{survivor, Inputs};
use crate::output_chunks::export_trie::ExportView;
use crate::output_chunks::header::{ChunkView, SegmentView};
use crate::symbol::{Origin, Symbol};
use crate::util::{bytes, order};
use vstd::prelude::*;

verus! {

/// The entry of a definition tells where it is: an external entry of the
/// section with the right ordinal, or an absolute one. Bit 7 of the
/// description marks it as weak.
pub proof fn lemma_global_entry(x: Inputs, ords: Seq<u8>, id: u32)
    requires
        id < x.symtab.syms.len(),
    ensures
        ({
            let s = x.symtab.syms[id as int];
            let e = global_entry(x, ords, id);
            &&& e.name == s.name@
            &&& e.sym == Some(id)
            &&& e.ent.n_type & 0x01 == 1
            &&& e.ent.n_type & 0xf0 == 0
            &&& s.isec != u32::MAX || s.defined_by() is Synthetic ==> e.ent.n_type & 0x0e == 0x0e
            &&& s.isec == u32::MAX && !(s.defined_by() is Synthetic) ==> e.ent.n_type & 0x0e == 0x02
                && e.ent.n_sect == 0
            &&& s.isec != u32::MAX && x.isecs[survivor(x.isecs@, s.isec as int)].osec < ords.len()
                ==> e.ent.n_sect == ords[x.isecs[survivor(x.isecs@, s.isec as int)].osec as int]
            &&& (e.ent.n_desc & 0x80 != 0) == s.flags.is_weak_def
            &&& e.ent.n_desc & 0x40 == 0
        }),
{
    assert(0x0eu8 | 0x01u8 == 0x0f && 0x02u8 | 0x01u8 == 0x03 && 0x0fu8 & 0x01 == 1 && 0x0fu8 & 0xf0
        == 0 && 0x0fu8 & 0x0e == 0x0e && 0x03u8 & 0x01 == 1 && 0x03u8 & 0xf0 == 0 && 0x03u8 & 0x0e
        == 0x02 && 0u16 | 0x80u16 == 0x80 && 0u16 | 0u16 == 0 && 0x10u16 | 0x80u16 == 0x90
        && 0x10u16 | 0u16 == 0x10 && 0x80u16 & 0x80 == 0x80 && 0x90u16 & 0x80 == 0x80 && 0u16 & 0x80
        == 0 && 0x10u16 & 0x80 == 0 && 0x80u16 & 0x40 == 0 && 0x90u16 & 0x40 == 0 && 0u16 & 0x40
        == 0 && 0x10u16 & 0x40 == 0) by (bit_vector);
}

/// The entry of an import is undefined and external, and names the library's
/// ordinal in the upper byte of its description. Bit 6 marks an import that
/// may be missing.
pub proof fn lemma_import_entry(ctx: Context, id: u32)
    requires
        id < ctx.inputs.symtab.syms.len(),
    ensures
        ({
            let s = ctx.inputs.symtab.syms[id as int];
            let e = import_entry(ctx, id);
            &&& e.name == s.name@
            &&& e.ent.n_type == 0x01
            &&& e.ent.n_sect == 0
            &&& e.ent.n_value == 0
            &&& e.ent.n_desc as int / 256 == ctx.ordinal_of(s.file) as int % 256
            &&& (e.ent.n_desc & 0x40 != 0) == s.flags.is_weak_ref
            &&& e.ent.n_desc & 0xbf == 0
        }),
{
    let s = ctx.inputs.symtab.syms[id as int];
    let h = (ctx.ordinal_of(s.file) as int % 256) as u16;
    let w: u16 = if s.flags.is_weak_ref {
        0x40
    } else {
        0
    };
    let d = (h * 256 + w) as u16;
    assert(0x0u8 | 0x01u8 == 0x01 && (d & 0x40 != 0) == (w == 0x40) && d & 0xbf == 0) by (bit_vector)
        requires
            h < 256,
            w == 0 || w == 0x40,
            d == h * 256 + w,
    ;
}

proof fn lemma_ordinal_kept(
    chunks: Seq<ChunkView>,
    list: Seq<usize>,
    n: int,
    k: int,
)
    requires
        0 <= k < n <= list.len(),
        forall|i: int| 0 <= i < list.len() ==> (#[trigger] list[i]) < chunks.len(),
        forall|i: int, j: int| 0 <= i < j < list.len() ==> list[i] != list[j],
    ensures
        ordinals_to(chunks, list, n).len() == chunks.len(),
        ordinals_to(chunks, list, n)[list[k] as int] == if chunks[list[k] as int].hdr.is_sect {
            sections_in(chunks, list, k + 1) as u8
        } else {
            0
        },
    decreases n,
{
    lemma_ordinals_len(chunks, list, n - 1);
    if k < n - 1 {
        lemma_ordinal_kept(chunks, list, n - 1, k);
        assert(list[k] != list[n - 1]);
    } else {
        lemma_no_ordinal(chunks, list, n - 1, k);
    }
}

proof fn lemma_ordinals_len(chunks: Seq<ChunkView>, list: Seq<usize>, n: int)
    requires
        n <= list.len(),
        forall|i: int| 0 <= i < list.len() ==> (#[trigger] list[i]) < chunks.len(),
    ensures
        ordinals_to(chunks, list, n).len() == chunks.len(),
    decreases n,
{
    if n > 0 {
        lemma_ordinals_len(chunks, list, n - 1);
    }
}

proof fn lemma_no_ordinal(chunks: Seq<ChunkView>, list: Seq<usize>, n: int, k: int)
    requires
        0 <= n <= k < list.len(),
        forall|i: int| 0 <= i < list.len() ==> (#[trigger] list[i]) < chunks.len(),
        forall|i: int, j: int| 0 <= i < j < list.len() ==> list[i] != list[j],
    ensures
        ordinals_to(chunks, list, n)[list[k] as int] == 0,
    decreases n,
{
    if n > 0 {
        lemma_no_ordinal(chunks, list, n - 1, k);
        lemma_ordinals_len(chunks, list, n - 1);
        assert(list[n - 1] != list[k]);
    }
}

/// Sections are numbered from 1 in the order of the file: a section's
/// ordinal is the number of sections up to and with it, and what is no
/// section has none.
pub proof fn lemma_section_numbers(chunks: Seq<ChunkView>, segs: Seq<SegmentView>, k: int)
    requires
        ordinals_of(chunks, segs) is Some,
        ({
            let list = super::symtab::file_order(segs, segs.len() as int);
            &&& 0 <= k < list.len()
            &&& forall|i: int| 0 <= i < list.len() ==> (#[trigger] list[i]) < chunks.len()
            &&& forall|i: int, j: int| 0 <= i < j < list.len() ==> list[i] != list[j]
        }),
    ensures
        ({
            let list = super::symtab::file_order(segs, segs.len() as int);
            let ords = ordinals_of(chunks, segs)->0;
            &&& ords.len() == chunks.len()
            &&& chunks[list[k] as int].hdr.is_sect ==> ords[list[k] as int] as int
                == list.take(k + 1).filter(|c: usize| chunks[c as int].hdr.is_sect).len()
                && ords[list[k] as int] >= 1
            &&& !chunks[list[k] as int].hdr.is_sect ==> ords[list[k] as int] == 0
        }),
{
    let list = super::symtab::file_order(segs, segs.len() as int);
    lemma_ordinal_kept(chunks, list, list.len() as int, k);
    lemma_sections_counted(chunks, list, k + 1);
    lemma_sections_counted(chunks, list, k);
    lemma_count_grows(chunks, list, k + 1, list.len() as int);
}

proof fn lemma_count_grows(chunks: Seq<ChunkView>, list: Seq<usize>, a: int, b: int)
    requires
        0 <= a <= b,
    ensures
        sections_in(chunks, list, a) <= sections_in(chunks, list, b),
    decreases b - a,
{
    if a < b {
        lemma_count_grows(chunks, list, a, b - 1);
    }
}

proof fn lemma_sections_counted(chunks: Seq<ChunkView>, list: Seq<usize>, n: int)
    requires
        0 <= n <= list.len(),
    ensures
        sections_in(chunks, list, n) == list.take(n).filter(
            |c: usize| chunks[c as int].hdr.is_sect,
        ).len(),
    decreases n,
{
    reveal(Seq::filter);
    if n > 0 {
        lemma_sections_counted(chunks, list, n - 1);
        assert(list.take(n).drop_last() =~= list.take(n - 1));
    }
}

/// What the trie says of an exported definition: its distance from the start
/// of the image, bit 2 of the flags for a weak one, and bit 0 for a
/// thread-local one. An alias of an import names the library and the import.
pub proof fn lemma_export_says<E: Arch>(ctx: Context, id: u32)
    requires
        id < ctx.inputs.symtab.syms.len(),
        ctx.args.exported_symbols is None,
        ctx.args.unexported_symbols.len() == 0,
        forall|i: int|
            0 <= i < ctx.indirect_aliases.len() ==> (#[trigger] ctx.indirect_aliases[i]).0 != id,
        ctx.args.sw.pagezero_size <= ctx.addr_of_sym::<E>(id as int),
    ensures
        export_of::<E>(ctx, id) matches Some(ExportView::Addr { flags, addr })
            && ctx.args.sw.pagezero_size + addr == ctx.addr_of_sym::<E>(id as int) && flags < 8 && (
        flags / 4 == 1) == ctx.inputs.symtab.syms[id as int].flags.is_weak_def && (flags % 2 == 1)
            == super::slots::thread_local(ctx, id as int) && flags / 2 % 2 == 0,
{
    reveal(bytes::word64);
    lemma_no_alias(ctx.indirect_aliases@, id, 0);
    assert(!crate::util::glob::any_matches(
        bytes::views(ctx.args.unexported_symbols@),
        ctx.inputs.symtab.syms[id as int].name@,
    ));
}

proof fn lemma_no_alias(aliases: Seq<(u32, u32)>, id: u32, from: int)
    requires
        0 <= from,
        forall|i: int| 0 <= i < aliases.len() ==> (#[trigger] aliases[i]).0 != id,
    ensures
        super::tables::alias_target(aliases, id, from) is None,
    decreases aliases.len() - from,
{
    if from < aliases.len() {
        assert(aliases[from].0 != id);
        lemma_no_alias(aliases, id, from + 1);
    }
}

/// The symbol of a relocation.
pub open spec fn target(ctx: Context, s: InputSection, rel: Reloc, id: u32) -> bool {
    rel.refers_to() matches RelocTarget::Sym(i) && ctx.inputs.objs[s.obj as int].syms[i as int]
        == id
}

proof fn lemma_need_listed<E: Arch>(ctx: Context, i: int, n: int, k: int, id: u32)
    requires
        0 <= k < n,
        target(ctx, ctx.inputs.isecs[i], ctx.inputs.isecs[i].relocs[k], id),
    ensures
        isec_needs::<E>(ctx, i, n).contains(
            super::slots::reloc_need::<E>(
                ctx,
                ctx.inputs.isecs[i],
                ctx.inputs.isecs[i].relocs[k],
            )->0,
        ),
        super::slots::reloc_need::<E>(
            ctx,
            ctx.inputs.isecs[i],
            ctx.inputs.isecs[i].relocs[k],
        ) is Some,
    decreases n,
{
    let s = ctx.inputs.isecs[i];
    let need = super::slots::reloc_need::<E>(ctx, s, s.relocs[k])->0;
    let all = isec_needs::<E>(ctx, i, n);
    let before = isec_needs::<E>(ctx, i, n - 1);
    if k < n - 1 {
        lemma_need_listed::<E>(ctx, i, n - 1, k, id);
        let j = before.index_of(need);
        assert(all[j] == need);
    } else {
        assert(all[before.len() as int] == need);
    }
}

proof fn lemma_all_needs<E: Arch>(ctx: Context, n: int, i: int, k: int, id: u32)
    requires
        0 <= i < n,
        ctx.inputs.isecs[i].is_alive,
        0 <= k < ctx.inputs.isecs[i].relocs.len(),
        target(ctx, ctx.inputs.isecs[i], ctx.inputs.isecs[i].relocs[k], id),
    ensures
        needs_to::<E>(ctx, n).contains(
            super::slots::reloc_need::<E>(
                ctx,
                ctx.inputs.isecs[i],
                ctx.inputs.isecs[i].relocs[k],
            )->0,
        ),
    decreases n,
{
    let s = ctx.inputs.isecs[i];
    let need = super::slots::reloc_need::<E>(ctx, s, s.relocs[k])->0;
    let all = needs_to::<E>(ctx, n);
    let before = needs_to::<E>(ctx, n - 1);
    if i < n - 1 {
        lemma_all_needs::<E>(ctx, n - 1, i, k, id);
        let j = before.index_of(need);
        assert(all[j] == need);
    } else {
        lemma_need_listed::<E>(ctx, i, s.relocs.len() as int, k, id);
        let own = isec_needs::<E>(ctx, i, s.relocs.len() as int);
        let j = own.index_of(need);
        assert(all[before.len() + j] == need);
    }
}

/// After the scan every live reference has what it goes through: a branch to
/// an import a stub and a slot, a reference through the GOT a slot, a load
/// that cannot avoid it a slot, and an imported thread-local variable its
/// pointer. Only thread-local variables are referenced as such.
pub proof fn lemma_references_served<E: Arch>(ctx: Context, after: Context, i: int, k: int, id: u32)
    requires
        0 <= i < ctx.inputs.isecs.len(),
        ctx.inputs.isecs[i].is_alive,
        0 <= k < ctx.inputs.isecs[i].relocs.len(),
        target(ctx, ctx.inputs.isecs[i], ctx.inputs.isecs[i].relocs[k], id),
        ({
            let needs = needs_to::<E>(ctx, ctx.inputs.isecs.len() as int);
            met(lists_of(ctx), needs, needs.len() as int) == Ok::<super::slots::SlotLists, u32>(
                lists_of(after),
            )
        }),
    ensures
        ({
            let s = ctx.inputs.isecs[i];
            let rel = s.relocs[k];
            let class = E::class_of(rel.r_type);
            let imported = ctx.inputs.symtab.syms[id as int].flags.is_imported;
            let stubs = after.slots.stub_syms@;
            let gots = after.slots.got_syms@;
            let tlvs = after.slots.thread_ptr_syms@;
            &&& class == RelocClass::Branch && imported ==> stubs.contains(id) && gots.contains(id)
            &&& class == RelocClass::Got ==> gots.contains(id)
            &&& class == RelocClass::GotLoad && (imported || !E::relaxable(
                s.data@,
                rel.offset,
                rel.r_type,
            )) ==> gots.contains(id)
            &&& class == RelocClass::Tlv && imported ==> tlvs.contains(id)
            &&& (class == RelocClass::Tlv) == super::slots::thread_local(ctx, id as int)
        }),
{
    let needs = needs_to::<E>(ctx, ctx.inputs.isecs.len() as int);
    lemma_all_needs::<E>(ctx, ctx.inputs.isecs.len() as int, i, k, id);
    let s = ctx.inputs.isecs[i];
    let need = super::slots::reloc_need::<E>(ctx, s, s.relocs[k])->0;
    let j = needs.index_of(need);
    assert(needs[j] == need);
    super::slots::lemma_needs_met(lists_of(ctx), needs, needs.len() as int, j);
}

proof fn lemma_reported(x: Inputs, args: Args, n: int, i: int)
    requires
        0 <= n <= x.symtab.syms.len() <= u32::MAX,
        0 <= i < n,
    ensures
        (exists|k: int|
            0 <= k < errors_to(x, args, n).len() && (#[trigger] errors_to(x, args, n)[k]).sym == i)
            <==> x.symtab.syms[i].flags.is_used && x.symtab.syms[i].defined_by() == Origin::Undef
            && !args.sw.undefined_dynamic_lookup && !bytes::views(args.allowed_undefined@).contains(
            x.symtab.syms[i].name@,
        ),
        forall|k: int|
            0 <= k < errors_to(x, args, n).len() ==> (#[trigger] errors_to(x, args, n)[k]).sym < n,
    decreases n,
{
    let all = errors_to(x, args, n);
    let before = errors_to(x, args, n - 1);
    if n > 1 {
        lemma_reported(
            x,
            args,
            n - 1,
            if i < n - 1 {
                i
            } else {
                0
            },
        );
    }
    if i < n - 1 {
        if exists|k: int| 0 <= k < before.len() && (#[trigger] before[k]).sym == i {
            let k = choose|k: int| 0 <= k < before.len() && (#[trigger] before[k]).sym == i;
            assert(all[k].sym == i);
        }
        if exists|k: int| 0 <= k < all.len() && (#[trigger] all[k]).sym == i {
            let k = choose|k: int| 0 <= k < all.len() && (#[trigger] all[k]).sym == i;
            assert(k < before.len());
            assert(before[k].sym == i);
        }
    } else {
        if all.len() > before.len() {
            assert(all[before.len() as int].sym == i);
        }
        if exists|k: int| 0 <= k < all.len() && (#[trigger] all[k]).sym == i {
            let k = choose|k: int| 0 <= k < all.len() && (#[trigger] all[k]).sym == i;
            if k < before.len() {
                assert(before[k].sym < n - 1);
            }
        }
    }
}

/// A symbol is reported as undefined exactly if it is used, nothing defines
/// it, and neither the options nor its name leave it to the loader. What is
/// left to the loader becomes an import from no particular library, and
/// nothing else changes.
pub proof fn lemma_undefined_reported(x: Inputs, args: Args, i: int)
    requires
        0 <= i < x.symtab.syms.len() <= u32::MAX,
    ensures
        ({
            let s = x.symtab.syms[i];
            let t = left_to_loader(args, s);
            let missing = s.flags.is_used && s.defined_by() == Origin::Undef;
            let allowed = args.sw.undefined_dynamic_lookup || bytes::views(
                args.allowed_undefined@,
            ).contains(s.name@);
            let errors = errors_to(x, args, x.symtab.syms.len() as int);
            &&& (exists|k: int| 0 <= k < errors.len() && (#[trigger] errors[k]).sym == i)
                <==> missing && !allowed
            &&& missing && allowed ==> t.defined_by() == Origin::Dylib(u32::MAX)
                && t.flags.is_imported && t.name == s.name
            &&& !(missing && allowed) ==> t == s
        }),
{
    lemma_reported(x, args, x.symtab.syms.len() as int, i);
}

/// True for an entry of a live object that defines the symbol weakly in a
/// section.
pub open spec fn defines_weakly(x: Inputs, id: int, o: int, k: int) -> bool {
    &&& 0 <= o < x.objs.len()
    &&& x.objs[o].is_alive
    &&& 0 <= k < x.objs[o].nlists.len()
    &&& x.objs[o].syms[k] == id
    &&& x.objs[o].nlists[k].n_type & 0xe0 == 0
    &&& x.objs[o].nlists[k].n_type & 0x01 != 0
    &&& x.objs[o].nlists[k].n_type & 0x0e == 0x0e
    &&& x.objs[o].nlists[k].n_desc & 0x80 != 0
}

proof fn lemma_obj_marks(x: Inputs, o: int, n: int, before: Seq<(bool, bool)>, id: int)
    requires
        x.wf(),
        0 <= o < x.objs.len(),
        x.objs[o].is_alive,
        0 <= n <= x.objs[o].nlists.len(),
        before.len() == x.symtab.syms.len(),
        0 <= id < before.len(),
    ensures
        ({
            let m = obj_marks(x, o, n, before);
            &&& m.len() == before.len()
            &&& m[id].0 <==> before[id].0 || exists|k: int| k < n && #[trigger]
            defines_weakly(x, id, o, k)
            &&& m[id].1 <==> before[id].1 || exists|k: int|
                k < n && #[trigger] defines_weakly(x, id, o, k) && x.objs[o].nlists[k].n_desc & 0x40
                    == 0
        }),
    decreases n,
{
    if n > 0 {
        lemma_obj_marks(x, o, n - 1, before, id);
        assert(x.obj_ok(x.objs[o]));
        assert(x.objs[o].syms[n - 1] < x.symtab.syms.len());
        let m = obj_marks(x, o, n, before);
        let p = obj_marks(x, o, n - 1, before);
        if x.objs[o].syms[n - 1] == id {
            assert(super::weak::is_weak_entry(x.objs[o].nlists[n - 1]) <==> defines_weakly(
                x,
                id,
                o,
                n - 1,
            ));
        }
        assert(defines_weakly(x, id, o, n - 1) ==> x.objs[o].syms[n - 1] == id);
    }
}

proof fn lemma_marks(x: Inputs, n: int, id: int)
    requires
        x.wf(),
        0 <= n <= x.objs.len(),
        0 <= id < x.symtab.syms.len(),
    ensures
        ({
            let m = marks_to(x, n);
            &&& m.len() == x.symtab.syms.len()
            &&& m[id].0 <==> exists|o: int, k: int| o < n && #[trigger] defines_weakly(x, id, o, k)
            &&& m[id].1 <==> exists|o: int, k: int|
                o < n && #[trigger] defines_weakly(x, id, o, k) && x.objs[o].nlists[k].n_desc & 0x40
                    == 0
        }),
    decreases n,
{
    if n > 0 {
        lemma_marks(x, n - 1, id);
        if x.objs[n - 1].is_alive {
            lemma_obj_marks(
                x,
                n - 1,
                x.objs[n - 1].nlists.len() as int,
                marks_to(x, n - 1),
                id,
            );
        }
    }
}

/// In an executable a weak definition is hidden exactly if some live object
/// defines it weakly, all that do allow it (bit 6 of the description), and
/// no export list asks for it. Other outputs hide nothing, and hiding makes
/// the symbol private and changes nothing else.
pub proof fn lemma_weak_definitions_hidden(args: Args, x: Inputs, id: int)
    requires
        x.wf(),
        0 <= id < x.symtab.syms.len(),
        args.exported_symbols is None,
    ensures
        ({
            let s = x.symtab.syms[id];
            let t = after_hiding(args, x)[id];
            let hides = args.sw.output_type == 2 && s.flags.is_weak_def && s.flags.is_extern
                && s.defined_by() is Obj && (exists|o: int, k: int| #[trigger]
                defines_weakly(x, id, o, k)) && forall|o: int, k: int| #[trigger]
                defines_weakly(x, id, o, k) ==> x.objs[o].nlists[k].n_desc & 0x40 != 0;
            &&& hides ==> t.flags.is_private_extern && t == (Symbol { flags: t.flags, ..s })
                && t.flags == (crate::symbol::SymFlags { is_private_extern: true, ..s.flags })
            &&& !hides ==> t == s
        }),
{
    lemma_marks(x, x.objs.len() as int, id);
}

/// A losing copy of a weak definition is redirected to the winner's
/// subsection only if the definition is at the same offset in both and they
/// have the same size; then both have the same surviving copy. No other
/// subsection changes.
pub proof fn lemma_copies_redirected(isecs: Seq<InputSection>, c: Copied)
    requires
        crate::inputs::redirects_exist(isecs),
        isecs.len() < u32::MAX,
        c.loser < isecs.len(),
        c.winner < isecs.len(),
    ensures
        ({
            let after = with_copy(isecs, c);
            let l = survivor(isecs, c.loser as int);
            let w = survivor(isecs, c.winner as int);
            &&& after.len() == isecs.len()
            &&& forall|i: int| 0 <= i < isecs.len() && i != l ==> #[trigger] after[i] == isecs[i]
            &&& after[l] != isecs[l] ==> c.off == c.value && isecs[l].size == isecs[w].size
                && isecs[l].replacement == u32::MAX && after[l].replacement == w && l != w
            &&& c.off == c.value && isecs[l].size == isecs[w].size && isecs[l].replacement
                == u32::MAX && l != w ==> after[l].replacement == w && after[l] == (InputSection {
                replacement: w as u32,
                ..isecs[l]
            })
        }),
{
    crate::inputs::lemma_follow_exists(isecs, c.loser as int, isecs.len());
    crate::inputs::lemma_follow_exists(isecs, c.winner as int, isecs.len());
}

/// A library is left out exactly if leaving it out is allowed, by an option
/// or by the library itself, nothing asks for it to be kept, and no symbol
/// comes from it.
pub proof fn lemma_unused_libraries_dropped(ctx: Context, d: int)
    requires
        0 <= d < ctx.dylibs.len() <= u32::MAX,
    ensures
        !super::dylibs::staying(ctx)[d] <==> (ctx.args.sw.dead_strip_dylibs
            || ctx.dylibs[d].is_dead_strippable) && !ctx.dylibs[d].is_needed && forall|i: int|
            0 <= i < ctx.inputs.symtab.syms.len() ==> (
            #[trigger] ctx.inputs.symtab.syms[i]).defined_by() != Origin::Dylib(d as u32),
{
    let syms = ctx.inputs.symtab.syms@;
    if exists|i: int|
        0 <= i < syms.len() && (#[trigger] ctx.inputs.symtab.syms[i]).defined_by()
            == Origin::Dylib(d as u32) {
        let i = choose|i: int|
            0 <= i < syms.len() && (#[trigger] ctx.inputs.symtab.syms[i]).defined_by()
                == Origin::Dylib(d as u32);
        assert(super::dylibs::binds_to(syms[i], d));
    }
    if super::dylibs::is_bound(syms, d, syms.len() as int) {
        let i = choose|i: int|
            0 <= i < syms.len() && super::dylibs::binds_to(#[trigger] syms[i], d);
        assert(ctx.inputs.symtab.syms[i].defined_by() == Origin::Dylib(d as u32));
    }
}

} // verus!
