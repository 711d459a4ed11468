//! Where things are in the output, and what the sections that the linker
//! makes hold. The laws speak of the layout and of the bytes.
use super::contents::{
    all_indirect, indirect_bytes, init_bytes, slot_bytes, stub_bytes,
};
use super::fixups::{
    all_fixups, binds_to, data_fixups, isec_fixups, slides_to, slot_fixups, Fixup,
};
use super::synthetic::{boundary_addr, BoundaryView};
use crate::arch::Arch;
use crate::chunks::bind_info::BindView;
use crate::context::{Context, Layout};
use crate::input_sections::RelocTarget;
use crate::inputs::survivor;
use crate::output_chunks::header::{Chunk, OutputSegment};
use crate::util::bytes;
use vstd::prelude::*;

verus! {

/// The address of a subsection's surviving copy: where its chunk is, plus
/// its offset there.
pub open spec fn place(ctx: Context, isec: int) -> int {
    let s = ctx.inputs.isecs[survivor(ctx.inputs.isecs@, isec)];
    ctx.layout.chunks[s.osec as int].hdr.addr + s.output_offset
}

/// True when the subsection's surviving copy has a place in the output.
pub open spec fn has_place(ctx: Context, isec: int) -> bool {
    let s = ctx.inputs.isecs[survivor(ctx.inputs.isecs@, isec)];
    s.osec != u32::MAX && s.output_offset != crate::input_sections::UNPLACED
}

/// A definition is at its offset in its subsection, wherever that is. An
/// absolute symbol is its value, and an undefined one has address 0.
pub proof fn lemma_symbol_address<E: Arch>(ctx: Context, id: int)
    requires
        0 <= id < ctx.inputs.symtab.syms.len(),
    ensures
        ({
            let s = ctx.inputs.symtab.syms[id];
            let at = ctx.addr_of_sym::<E>(id) as int;
            &&& s.defined_by() is Obj && s.isec != u32::MAX && has_place(ctx, s.isec as int) ==> at
                == (place(ctx, s.isec as int) + s.value) % 0x1_0000_0000_0000_0000
            &&& s.defined_by() is Obj && s.isec == u32::MAX && s.aux_idx == u32::MAX ==> at
                == s.value
            &&& s.defined_by() is Undef ==> at == 0
        }),
{
    reveal(bytes::word64);
    let s = ctx.inputs.symtab.syms[id];
    if s.isec != u32::MAX {
        let p = place(ctx, s.isec as int);
        vstd::arithmetic::div_mod::lemma_add_mod_noop_right(
            s.value as int,
            p,
            0x1_0000_0000_0000_0000,
        );
    }
}

/// The slots and stubs of symbols stand one behind the other in their
/// chunks: slots take eight bytes each, stubs the target's size.
pub proof fn lemma_slot_addresses<E: Arch>(ctx: Context, id: int)
    requires
        0 <= id < ctx.inputs.symtab.syms.len(),
        ctx.inputs.symtab.syms[id].aux_idx != u32::MAX,
    ensures
        ({
            let a = ctx.sym_aux[ctx.inputs.symtab.syms[id].aux_idx as int];
            let chunks = ctx.layout.chunks@;
            let got = chunks[ctx.layout.got_chunk as int].hdr.addr;
            let tlv = chunks[ctx.layout.thread_ptrs_chunk as int].hdr.addr;
            let stubs = chunks[ctx.layout.stubs_chunk as int].hdr.addr;
            &&& ctx.addr_of_got(id) == (got + 8 * a.got_idx) % 0x1_0000_0000_0000_0000
            &&& ctx.addr_of_tlv_ptr(id) == (tlv + 8 * a.tlv_idx) % 0x1_0000_0000_0000_0000
            &&& ctx.addr_of_stub::<E>(id) == (stubs + E::info().stub_size * a.stub_idx)
                % 0x1_0000_0000_0000_0000
        }),
{
    reveal(bytes::word64);
    let a = ctx.sym_aux[ctx.inputs.symtab.syms[id].aux_idx as int];
    assert(a.stub_idx * E::info().stub_size == E::info().stub_size * a.stub_idx)
        by (nonlinear_arith);
}

proof fn lemma_quad_behind(a: Seq<u8>, v: u64, i: int)
    requires
        0 <= i,
        8 * i + 8 <= a.len() || 8 * i == a.len(),
    ensures
        8 * i == a.len() ==> bytes::u64_at(a + bytes::le64(v), 8 * i) == v,
        8 * i + 8 <= a.len() ==> bytes::u64_at(a + bytes::le64(v), 8 * i) == bytes::u64_at(
            a,
            8 * i,
        ),
        bytes::le64(v).len() == 8,
{
    reveal(bytes::u32_at);
    reveal(bytes::u64_at);
    bytes::lemma_le64_round_trip(v);
    let s = a + bytes::le64(v);
    if 8 * i == a.len() {
        assert(bytes::u32_at(s, 8 * i) == bytes::u32_at(bytes::le64(v), 0));
        assert(bytes::u32_at(s, 8 * i + 4) == bytes::u32_at(bytes::le64(v), 4));
    } else {
        assert(bytes::u32_at(s, 8 * i) == bytes::u32_at(a, 8 * i));
        assert(bytes::u32_at(s, 8 * i + 4) == bytes::u32_at(a, 8 * i + 4));
    }
}

proof fn lemma_word_behind(a: Seq<u8>, v: u32, i: int)
    requires
        0 <= i,
        4 * i + 4 <= a.len() || 4 * i == a.len(),
    ensures
        4 * i == a.len() ==> bytes::u32_at(a + bytes::le32(v), 4 * i) == v,
        4 * i + 4 <= a.len() ==> bytes::u32_at(a + bytes::le32(v), 4 * i) == bytes::u32_at(
            a,
            4 * i,
        ),
{
    reveal(bytes::u32_at);
    bytes::lemma_le32_round_trip(v);
    let s = a + bytes::le32(v);
    if 4 * i == a.len() {
        assert(bytes::u32_at(s, 4 * i) == bytes::u32_at(bytes::le32(v), 0));
    } else {
        assert(bytes::u32_at(s, 4 * i) == bytes::u32_at(a, 4 * i));
    }
}

/// Each slot of a list holds the address of its symbol, in the order of the
/// list, and 0 for an import.
pub proof fn lemma_slots_hold_addresses<E: Arch>(ctx: Context, syms: Seq<u32>, n: int, i: int)
    requires
        0 <= i < n <= syms.len(),
    ensures
        slot_bytes::<E>(ctx, syms, n).len() == 8 * n,
        bytes::u64_at(slot_bytes::<E>(ctx, syms, n), 8 * i) == if ctx.inputs.symtab.syms[
            syms[i] as int
        ].flags.is_imported {
            0
        } else {
            ctx.addr_of_sym::<E>(syms[i] as int)
        },
    decreases n,
{
    let id = syms[n - 1] as int;
    let v = if ctx.inputs.symtab.syms[id].flags.is_imported {
        0
    } else {
        ctx.addr_of_sym::<E>(id)
    };
    let before = slot_bytes::<E>(ctx, syms, n - 1);
    if n > 1 {
        lemma_slots_hold_addresses::<E>(
            ctx,
            syms,
            n - 1,
            if i < n - 1 {
                i
            } else {
                0
            },
        );
    }
    lemma_quad_behind(before, v, i);
}

/// Each initializer's entry is the distance of the function from the start
/// of the image, if the image is no larger than 4 GiB.
pub proof fn lemma_initializers_listed(ctx: Context, n: int, i: int)
    requires
        0 <= i < n <= ctx.init_funcs.len(),
        has_place(ctx, ctx.init_funcs[i].0 as int),
        ({
            let at = place(ctx, ctx.init_funcs[i].0 as int) + ctx.init_funcs[i].1;
            ctx.args.sw.pagezero_size <= at < ctx.args.sw.pagezero_size + 0x1_0000_0000 && at
                <= u64::MAX
        }),
    ensures
        init_bytes(ctx, n).len() == 4 * n,
        ctx.args.sw.pagezero_size + bytes::u32_at(init_bytes(ctx, n), 4 * i) == place(
            ctx,
            ctx.init_funcs[i].0 as int,
        ) + ctx.init_funcs[i].1,
    decreases n,
{
    lemma_inits_len(ctx, n - 1);
    lemma_inits_len(ctx, n);
    let f = ctx.init_funcs[n - 1];
    let before = init_bytes(ctx, n - 1);
    let v = bytes::word32(
        bytes::word64(
            bytes::word64(ctx.addr_of_isec(f.0 as int) + f.1) - ctx.args.sw.pagezero_size,
        ) as int,
    );
    lemma_word_behind(before, v, i);
    if i < n - 1 {
        lemma_initializers_listed(ctx, n - 1, i);
    } else {
        reveal(bytes::word64);
        reveal(bytes::word32);
    }
}

proof fn lemma_inits_len(ctx: Context, n: int)
    requires
        0 <= n,
    ensures
        init_bytes(ctx, n).len() == 4 * n,
    decreases n,
{
    if n > 0 {
        lemma_inits_len(ctx, n - 1);
    }
}

proof fn lemma_stubs_len<E: Arch>(ctx: Context, addr: u64, n: int)
    requires
        0 <= n,
    ensures
        stub_bytes::<E>(ctx, addr, n).len() == E::info().stub_size * n,
    decreases n,
{
    if n > 0 {
        lemma_stubs_len::<E>(ctx, addr, n - 1);
        E::sizes_ok(
            bytes::word64(addr + (n - 1) * E::info().stub_size),
            crate::output_chunks::eh_frame::got_or_zero(ctx, ctx.slots.stub_syms[n - 1] as int),
            0,
        );
        let size = E::info().stub_size;
        assert(size * n == size * (n - 1) + size) by (nonlinear_arith);
    } else {
        let size = E::info().stub_size;
        assert(size * 0 == 0) by (nonlinear_arith);
    }
}

/// The stub of a symbol is where the symbol's stub address says, and it is
/// the target's code for jumping through the symbol's own slot.
pub proof fn lemma_stub_stands<E: Arch>(ctx: Context, addr: u64, n: int, i: int)
    requires
        0 <= i < n <= ctx.slots.stub_syms.len(),
        addr + E::info().stub_size * n <= u64::MAX,
    ensures
        ({
            let size = E::info().stub_size as int;
            let at = size * i;
            let id = ctx.slots.stub_syms[i] as int;
            &&& at + size <= stub_bytes::<E>(ctx, addr, n).len()
            &&& stub_bytes::<E>(ctx, addr, n).subrange(at, at + size) == E::stub(
                (addr + at) as u64,
                crate::output_chunks::eh_frame::got_or_zero(ctx, id),
            )
        }),
    decreases n,
{
    let size = E::info().stub_size as int;
    let at = size * i;
    let id = ctx.slots.stub_syms[i] as int;
    let slot = crate::output_chunks::eh_frame::got_or_zero(ctx, id);
    lemma_stubs_len::<E>(ctx, addr, n - 1);
    lemma_stubs_len::<E>(ctx, addr, n);
    let before = stub_bytes::<E>(ctx, addr, n - 1);
    let all = stub_bytes::<E>(ctx, addr, n);
    assert(size * n == size * (n - 1) + size) by (nonlinear_arith);
    if i < n - 1 {
        lemma_stub_stands::<E>(ctx, addr, n - 1, i);
        assert(all.subrange(at, at + size) =~= before.subrange(at, at + size));
    } else {
        assert((n - 1) * size == at) by (nonlinear_arith)
            requires
                at == size * i,
                i == n - 1,
        ;
        assert(at >= 0) by (nonlinear_arith)
            requires
                at == size * i,
                size >= 0,
                i >= 0,
        ;
        assert(bytes::word64(addr + at) == addr + at) by {
            reveal(bytes::word64);
        }
        E::sizes_ok((addr + at) as u64, slot, 0);
        assert(all.subrange(at, at + size) =~= E::stub((addr + at) as u64, slot));
    }
}

proof fn lemma_indirect_len(
    ctx: Context,
    indices: Seq<u32>,
    syms: Seq<u32>,
    got: bool,
    n: int,
)
    requires
        0 <= n,
    ensures
        indirect_bytes(ctx, indices, syms, got, n).len() == 4 * n,
    decreases n,
{
    if n > 0 {
        lemma_indirect_len(ctx, indices, syms, got, n - 1);
    }
}

proof fn lemma_indirect_at(
    ctx: Context,
    indices: Seq<u32>,
    syms: Seq<u32>,
    got: bool,
    n: int,
    i: int,
)
    requires
        0 <= i < n <= syms.len(),
    ensures
        bytes::u32_at(indirect_bytes(ctx, indices, syms, got, n), 4 * i)
            == super::contents::indirect_entry(
            indices,
            syms[i],
            got && !(ctx.inputs.symtab.syms[syms[i] as int].flags.is_imported
                || ctx.weak_coalesced(syms[i] as int)),
        ),
    decreases n,
{
    lemma_indirect_len(ctx, indices, syms, got, n - 1);
    let id = syms[n - 1];
    let local = got && !(ctx.inputs.symtab.syms[id as int].flags.is_imported || ctx.weak_coalesced(
        id as int,
    ));
    lemma_word_behind(
        indirect_bytes(ctx, indices, syms, got, n - 1),
        super::contents::indirect_entry(indices, id, local),
        i,
    );
    if i < n - 1 {
        lemma_indirect_at(ctx, indices, syms, got, n - 1, i);
    }
}

/// The indirect symbol table names the symbol of each stub, and behind these
/// that of each slot that dyld binds. The word 0x8000_0000 stands for a slot
/// that stays as it is, and for a symbol without an entry.
pub proof fn lemma_indirect_symbols<E: Arch>(ctx: Context, indices: Seq<u32>, i: int)
    requires
        0 <= i < ctx.slots.stub_syms.len() + ctx.slots.got_syms.len(),
    ensures
        ({
            let w = bytes::u32_at(all_indirect::<E>(ctx, indices), 4 * i);
            let n = ctx.slots.stub_syms.len() as int;
            let id = if i < n {
                ctx.slots.stub_syms[i]
            } else {
                ctx.slots.got_syms[i - n]
            };
            let s = ctx.inputs.symtab.syms[id as int];
            &&& i < n && indices[id as int] != u32::MAX ==> w == indices[id as int]
            &&& i >= n && s.flags.is_imported && indices[id as int] != u32::MAX ==> w
                == indices[id as int]
            &&& i >= n && !s.flags.is_imported && !s.flags.is_weak_def ==> w == 0x8000_0000
            &&& indices[id as int] == u32::MAX ==> w == 0x8000_0000
        }),
{
    reveal(bytes::u32_at);
    let stubs = ctx.slots.stub_syms@;
    let got = ctx.slots.got_syms@;
    let a = indirect_bytes(ctx, indices, stubs, false, stubs.len() as int);
    let b = indirect_bytes(ctx, indices, got, true, got.len() as int);
    lemma_indirect_len(ctx, indices, stubs, false, stubs.len() as int);
    lemma_indirect_len(ctx, indices, got, true, got.len() as int);
    let all = all_indirect::<E>(ctx, indices);
    let n = stubs.len() as int;
    if i < n {
        lemma_indirect_at(ctx, indices, stubs, false, n, i);
        assert(bytes::u32_at(all, 4 * i) == bytes::u32_at(a, 4 * i));
    } else {
        lemma_indirect_at(ctx, indices, got, true, got.len() as int, i - n);
        assert(bytes::u32_at(all, 4 * i) == bytes::u32_at(b, 4 * (i - n)));
    }
}

proof fn lemma_sum_has(a: Seq<Fixup>, b: Seq<Fixup>, f: Fixup)
    requires
        a.contains(f) || b.contains(f),
    ensures
        (a + b).contains(f),
{
    let s = a + b;
    if a.contains(f) {
        let k = a.index_of(f);
        assert(s[k] == f);
    } else {
        let k = b.index_of(f);
        assert(s[a.len() + k] == f);
    }
}

proof fn lemma_isec_fixup<E: Arch>(ctx: Context, id: int, n: int, k: int, f: Fixup)
    requires
        0 <= k < n,
        super::fixups::fixup_of::<E>(ctx, id, ctx.inputs.isecs[id].relocs[k]) == Some(f),
    ensures
        isec_fixups::<E>(ctx, id, n).contains(f),
    decreases n,
{
    let all = isec_fixups::<E>(ctx, id, n);
    let before = isec_fixups::<E>(ctx, id, n - 1);
    if k < n - 1 {
        lemma_isec_fixup::<E>(ctx, id, n - 1, k, f);
        let i = before.index_of(f);
        assert(all[i] == f);
    } else {
        assert(all[before.len() as int] == f);
    }
}

proof fn lemma_data_fixup<E: Arch>(ctx: Context, n: int, id: int, k: int, f: Fixup)
    requires
        0 <= id < n,
        0 <= k < ctx.inputs.isecs[id].relocs.len(),
        ctx.inputs.isecs[id].is_alive,
        ctx.inputs.isecs[id].replacement == u32::MAX,
        super::fixups::fixup_of::<E>(ctx, id, ctx.inputs.isecs[id].relocs[k]) == Some(f),
    ensures
        data_fixups::<E>(ctx, n).contains(f),
    decreases n,
{
    let before = data_fixups::<E>(ctx, n - 1);
    let own = isec_fixups::<E>(ctx, n - 1, ctx.inputs.isecs[n - 1].relocs.len() as int);
    if id < n - 1 {
        lemma_data_fixup::<E>(ctx, n - 1, id, k, f);
        lemma_sum_has(before, own, f);
    } else {
        lemma_isec_fixup::<E>(ctx, id, ctx.inputs.isecs[id].relocs.len() as int, k, f);
        lemma_sum_has(before, own, f);
    }
}

/// Every absolute pointer in the output is fixed up when the image is
/// loaded: one to an import is bound to that symbol with the relocation's
/// addend, and one to anything else but thread-local data slides. The
/// relocation type of an absolute pointer is 0 on both targets.
pub proof fn lemma_pointers_fixed_up<E: Arch>(ctx: Context, id: int, k: int)
    requires
        0 <= id < ctx.inputs.isecs.len(),
        ctx.inputs.isecs[id].is_alive,
        ctx.inputs.isecs[id].replacement == u32::MAX,
        has_place(ctx, id),
        survivor(ctx.inputs.isecs@, id) == id,
        0 <= k < ctx.inputs.isecs[id].relocs.len(),
        E::info().reloc_subtractor != 0,
        E::class_of(0) == crate::arch::RelocClass::Plain,
        ctx.inputs.isecs[id].relocs[k].r_type == 0,
        ctx.inputs.isecs[id].relocs[k].size == 8,
        !ctx.inputs.isecs[id].relocs[k].is_pcrel,
        !ctx.inputs.isecs[id].relocs[k].is_subtracted,
        place(ctx, id) + ctx.inputs.isecs[id].relocs[k].offset <= u64::MAX,
    ensures
        ({
            let s = ctx.inputs.isecs[id];
            let rel = s.relocs[k];
            let addr = (place(ctx, id) + rel.offset) as u64;
            let all = all_fixups::<E>(ctx);
            match rel.refers_to() {
                RelocTarget::Sym(i) => {
                    let sym = ctx.inputs.objs[s.obj as int].syms[i as int];
                    let imported = ctx.inputs.symtab.syms[sym as int].flags.is_imported;
                    &&& imported ==> all.contains(
                        (Fixup { addr, sym: Some(sym), addend: rel.addend }),
                    )
                    &&& !imported && !ctx.target_is_tls(s.obj, rel) ==> all.contains(
                        (Fixup { addr, sym: None, addend: 0 }),
                    )
                },
                RelocTarget::Section(_) => !ctx.target_is_tls(s.obj, rel) ==> all.contains(
                    (Fixup { addr, sym: None, addend: 0 }),
                ),
            }
        }),
{
    let s = ctx.inputs.isecs[id];
    let rel = s.relocs[k];
    let n = ctx.inputs.isecs.len() as int;
    assert(bytes::word64(ctx.addr_of_isec(id) + rel.offset) == place(ctx, id) + rel.offset) by {
        reveal(bytes::word64);
    }
    if let Some(f) = super::fixups::fixup_of::<E>(ctx, id, rel) {
        lemma_data_fixup::<E>(ctx, n, id, k, f);
        let a = data_fixups::<E>(ctx, n);
        let b = slot_fixups(ctx, ctx.layout.got_chunk, ctx.slots.got_syms@);
        let c = slot_fixups(ctx, ctx.layout.thread_ptrs_chunk, ctx.slots.thread_ptr_syms@);
        lemma_sum_has(a, b, f);
        lemma_sum_has(a + b, c, f);
        lemma_sum_has(a + b + c, super::fixups::selref_fixups(ctx), f);
    }
}

/// Every slot of __got and of the thread-local pointers is fixed up: bound
/// to its symbol if that is imported, and sliding otherwise.
pub proof fn lemma_slots_fixed_up<E: Arch>(ctx: Context, i: int)
    requires
        0 <= i,
        ctx.slots.got_syms.len() <= u32::MAX,
        ctx.slots.thread_ptr_syms.len() <= u32::MAX,
    ensures
        i < ctx.slots.got_syms.len() ==> exists|f: Fixup| #[trigger]
            all_fixups::<E>(ctx).contains(f) && f.addr == (
            ctx.layout.chunks[ctx.layout.got_chunk as int].hdr.addr + 8 * i)
                % 0x1_0000_0000_0000_0000 && f.addend == 0 && (f.sym
                == if ctx.inputs.symtab.syms[ctx.slots.got_syms[i] as int].flags.is_imported {
                Some(ctx.slots.got_syms[i])
            } else {
                None
            }),
        i < ctx.slots.thread_ptr_syms.len() ==> exists|f: Fixup| #[trigger]
            all_fixups::<E>(ctx).contains(f) && f.addr == (
            ctx.layout.chunks[ctx.layout.thread_ptrs_chunk as int].hdr.addr + 8 * i)
                % 0x1_0000_0000_0000_0000 && f.addend == 0 && (f.sym
                == if ctx.inputs.symtab.syms[ctx.slots.thread_ptr_syms[i] as int].flags.is_imported {
                Some(ctx.slots.thread_ptr_syms[i])
            } else {
                None
            }),
{
    reveal(bytes::word64);
    let a = data_fixups::<E>(ctx, ctx.inputs.isecs.len() as int);
    let b = slot_fixups(ctx, ctx.layout.got_chunk, ctx.slots.got_syms@);
    let c = slot_fixups(ctx, ctx.layout.thread_ptrs_chunk, ctx.slots.thread_ptr_syms@);
    let d = super::fixups::selref_fixups(ctx);
    if i < ctx.slots.got_syms.len() {
        let f = b[i];
        assert(b.contains(f));
        lemma_sum_has(a, b, f);
        lemma_sum_has(a + b, c, f);
        lemma_sum_has(a + b + c, d, f);
        assert(all_fixups::<E>(ctx).contains(f));
    }
    if i < ctx.slots.thread_ptr_syms.len() {
        let f = c[i];
        assert(c.contains(f));
        lemma_sum_has(a + b, c, f);
        lemma_sum_has(a + b + c, d, f);
        assert(all_fixups::<E>(ctx).contains(f));
    }
}

/// Every fixup gets to dyld: one that slides is among the rebased addresses,
/// and one that an import fills is among the binds, at its address, with the
/// import's name, the ordinal of its library, its addend, and whether it may
/// be missing.
pub proof fn lemma_fixups_reach_dyld(ctx: Context, fixups: Seq<Fixup>, n: int, i: int)
    requires
        0 <= i < n <= fixups.len(),
        binds_to(ctx, fixups, n) is Some,
    ensures
        fixups[i].sym is None ==> slides_to(fixups, n).contains(fixups[i].addr),
        fixups[i].sym matches Some(id) ==> exists|b: BindView| #[trigger]
            binds_to(ctx, fixups, n)->0.contains(b) && b.addr == fixups[i].addr && b.addend
                == fixups[i].addend && b.name == ctx.inputs.symtab.syms[id as int].name@ && b.weak
                == ctx.inputs.symtab.syms[id as int].flags.is_weak_ref && b.ordinal
                == ctx.ordinal_of(ctx.inputs.symtab.syms[id as int].file),
        slides_to(fixups, n).len() + binds_to(ctx, fixups, n)->0.len() == n,
    decreases n,
{
    let s = slides_to(fixups, n - 1);
    let b = binds_to(ctx, fixups, n - 1)->0;
    let t = slides_to(fixups, n);
    let c = binds_to(ctx, fixups, n)->0;
    if n > 1 {
        lemma_fixups_reach_dyld(
            ctx,
            fixups,
            n - 1,
            if i < n - 1 {
                i
            } else {
                0
            },
        );
    }
    if i < n - 1 {
        if fixups[i].sym is None {
            let k = s.index_of(fixups[i].addr);
            assert(t[k] == fixups[i].addr);
        } else {
            let id = fixups[i].sym->0;
            let v = choose|v: BindView| #[trigger]
                b.contains(v) && v.addr == fixups[i].addr && v.addend == fixups[i].addend && v.name
                    == ctx.inputs.symtab.syms[id as int].name@ && v.weak
                    == ctx.inputs.symtab.syms[id as int].flags.is_weak_ref && v.ordinal
                    == ctx.ordinal_of(ctx.inputs.symtab.syms[id as int].file);
            let k = b.index_of(v);
            assert(c[k] == v);
            assert(c.contains(v));
        }
    } else if fixups[i].sym is None {
        assert(t[s.len() as int] == fixups[i].addr);
    } else {
        assert(c[b.len() as int] == super::fixups::bind_of(ctx, fixups[i]));
        assert(c.contains(super::fixups::bind_of(ctx, fixups[i])));
    }
}

proof fn lemma_first_section(chunks: Seq<Chunk>, seg: Seq<u8>, sect: Seq<u8>, from: int, i: int)
    requires
        0 <= from <= i < chunks.len(),
        chunks[i].hdr@.is_named(seg, sect),
        forall|j: int| from <= j < i ==> !(#[trigger] chunks[j]).hdr@.is_named(seg, sect),
    ensures
        super::synthetic::section_at(chunks, seg, sect, from) == Some(i),
    decreases i - from,
{
    if from < i {
        assert(!chunks[from].hdr@.is_named(seg, sect));
        lemma_first_section(chunks, seg, sect, from + 1, i);
    }
}

proof fn lemma_first_segment(segs: Seq<OutputSegment>, name: Seq<u8>, from: int, i: int)
    requires
        0 <= from <= i < segs.len(),
        segs[i].name@ == name,
        forall|j: int| from <= j < i ==> (#[trigger] segs[j]).name@ != name,
    ensures
        super::synthetic::segment_at(segs, name, from) == Some(i),
    decreases i - from,
{
    if from < i {
        assert(segs[from].name@ != name);
        lemma_first_segment(segs, name, from + 1, i);
    }
}

/// The boundary symbols of a section are its start and its end: the first
/// has the section's address, and the second is the section's size behind
/// it.
pub proof fn lemma_section_boundaries(l: Layout, i: int, a: BoundaryView, b: BoundaryView)
    requires
        0 <= i < l.chunks.len(),
        l.chunks[i].hdr.is_sect,
        l.chunks[i].hdr.addr + l.chunks[i].hdr.size <= u64::MAX,
        a.is_start,
        !b.is_start,
        a.segname == l.chunks[i].hdr.segname@,
        b.segname == a.segname,
        a.sectname == Some(l.chunks[i].hdr.sectname@),
        b.sectname == a.sectname,
        forall|j: int|
            0 <= j < i ==> !((#[trigger] l.chunks[j]).hdr.is_sect && l.chunks[j].hdr.segname@
                == a.segname && Some(l.chunks[j].hdr.sectname@) == a.sectname),
    ensures
        boundary_addr(l, a) == Some(l.chunks[i].hdr.addr),
        boundary_addr(l, b) matches Some(end) && end - l.chunks[i].hdr.addr
            == l.chunks[i].hdr.size,
{
    let sect = l.chunks[i].hdr.sectname@;
    assert forall|j: int| 0 <= j < i implies !(#[trigger] l.chunks@[j]).hdr@.is_named(
        a.segname,
        sect,
    ) by {
        assert(!(l.chunks[j].hdr.is_sect && l.chunks[j].hdr.segname@ == a.segname && Some(
            l.chunks[j].hdr.sectname@,
        ) == a.sectname));
    }
    lemma_first_section(l.chunks@, a.segname, sect, 0, i);
    reveal(bytes::word64);
}

/// The boundary symbols of a segment are its start and its end.
pub proof fn lemma_segment_boundaries(l: Layout, i: int, a: BoundaryView, b: BoundaryView)
    requires
        0 <= i < l.segments.len(),
        l.segments[i].cmd.vmaddr + l.segments[i].cmd.vmsize <= u64::MAX,
        a.is_start,
        !b.is_start,
        a.segname == l.segments[i].name@,
        b.segname == a.segname,
        a.sectname is None,
        b.sectname is None,
        forall|j: int| 0 <= j < i ==> (#[trigger] l.segments[j]).name@ != a.segname,
    ensures
        boundary_addr(l, a) == Some(l.segments[i].cmd.vmaddr),
        boundary_addr(l, b) matches Some(end) && end - l.segments[i].cmd.vmaddr
            == l.segments[i].cmd.vmsize,
{
    assert forall|j: int| 0 <= j < i implies (#[trigger] l.segments@[j]).name@ != a.segname by {
        assert(l.segments[j].name@ != a.segname);
    }
    lemma_first_segment(l.segments@, a.segname, 0, i);
    reveal(bytes::word64);
}

} // verus!
