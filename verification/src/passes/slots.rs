//! Decides which symbols need a stub, a __got slot or a __thread_ptrs slot.
use crate::arch::{Arch, RelocClass};
use crate::context::{Context, Slots};
use crate::input_sections::{InputSection, Reloc, UNSET};
use crate::inputs::Inputs;
use crate::macho::consts::{SECTION_TYPE, S_THREAD_LOCAL_VARIABLES};
use crate::symbol::{Origin, SymAux, Symbol, NONE, NO_IDX};
use crate::util::text;
use vstd::prelude::*;

verus! {

/// The kinds of slots that relocations ask for.
#[derive(Clone, Copy, Debug, PartialEq, Eq, Structural)]
pub enum SlotKind {
    Stub,
    Got,
    ThreadPtr,
}

/// A symbol's index among the slots of a kind.
pub open spec fn slot_idx(ctx: Context, kind: SlotKind, id: int) -> u32 {
    match kind {
        SlotKind::Stub => ctx.slots_of(id).stub,
        SlotKind::Got => ctx.slots_of(id).got,
        SlotKind::ThreadPtr => ctx.slots_of(id).tlv,
    }
}

/// The symbols with a slot of a kind, in slot order.
pub open spec fn slot_list(ctx: Context, kind: SlotKind) -> Seq<u32> {
    match kind {
        SlotKind::Stub => ctx.slots.stub_syms@,
        SlotKind::Got => ctx.slots.got_syms@,
        SlotKind::ThreadPtr => ctx.slots.thread_ptr_syms@,
    }
}

/// How many of the first `n` symbols have a slot entry.
pub open spec fn aux_count(syms: Seq<Symbol>, n: int) -> int
    decreases n,
{
    if n <= 0 {
        0
    } else {
        aux_count(syms, n - 1) + if syms[n - 1].aux_idx != NONE {
            1int
        } else {
            0int
        }
    }
}

/// True when everything that symbols and subsections refer to exists, and
/// each slot entry belongs to one symbol.
pub open spec fn refs_exist(ctx: Context) -> bool {
    let syms = ctx.inputs.symtab.syms;
    &&& ctx.inputs.wf()
    &&& forall|i: int| 0 <= i < syms.len() ==> ctx.sym_ok(#[trigger] syms[i])
    &&& forall|a: int, b: int|
        0 <= a < b < syms.len() && (#[trigger] syms[a]).aux_idx != NONE ==> syms[a].aux_idx != (
        #[trigger] syms[b]).aux_idx
    &&& ctx.sym_aux.len() == aux_count(syms@, syms.len() as int)
}

/// True when slots of a kind are numbered: a symbol's index leads to its
/// place in the list, and each place is its symbol's index.
pub open spec fn numbered(ctx: Context, kind: SlotKind) -> bool {
    let l = slot_list(ctx, kind);
    let n = ctx.inputs.symtab.syms.len();
    &&& forall|id: int|
        0 <= id < n && #[trigger] slot_idx(ctx, kind, id) != NO_IDX ==> slot_idx(ctx, kind, id)
            < l.len() && l[slot_idx(ctx, kind, id) as int] == id
    &&& forall|k: int|
        0 <= k < l.len() ==> (#[trigger] l[k]) < n && slot_idx(ctx, kind, l[k] as int) == k
}

/// True when selector stubs are numbered in the same way.
pub open spec fn objc_numbered(ctx: Context) -> bool {
    let l = ctx.slots.objc_stubs;
    let n = ctx.inputs.symtab.syms.len();
    &&& forall|id: int|
        0 <= id < n && (#[trigger] ctx.slots_of(id)).objc_stub != NO_IDX ==> ctx.slots_of(
            id,
        ).objc_stub < l.len() && l[ctx.slots_of(id).objc_stub as int].0 == id
    &&& forall|k: int|
        0 <= k < l.len() ==> (#[trigger] l[k]).0 < n && ctx.slots_of(l[k].0 as int).objc_stub == k
}

/// The state in which slots are assigned.
pub open spec fn ready(ctx: Context) -> bool {
    &&& refs_exist(ctx)
    &&& numbered(ctx, SlotKind::Stub)
    &&& numbered(ctx, SlotKind::Got)
    &&& numbered(ctx, SlotKind::ThreadPtr)
    &&& objc_numbered(ctx)
}

/// A list with one more symbol, unless it holds it.
pub open spec fn added(l: Seq<u32>, id: u32) -> Seq<u32> {
    if l.contains(id) {
        l
    } else {
        l.push(id)
    }
}

/// True when symbols differ in their slot entries at most.
pub open spec fn same_but_aux(a: Seq<Symbol>, b: Seq<Symbol>) -> bool {
    &&& a.len() == b.len()
    &&& forall|i: int|
        0 <= i < a.len() ==> #[trigger] b[i] == (Symbol { aux_idx: b[i].aux_idx, ..a[i] })
}

/// True when a context differs in slots at most.
pub open spec fn same_but_slots(a: Context, b: Context) -> bool {
    &&& b == (Context { inputs: b.inputs, sym_aux: b.sym_aux, slots: b.slots, ..a })
    &&& b.inputs == (Inputs { symtab: b.inputs.symtab, ..a.inputs })
    &&& b.inputs.symtab.shards == a.inputs.symtab.shards
    &&& same_but_aux(a.inputs.symtab.syms@, b.inputs.symtab.syms@)
    &&& b.slots == (Slots {
        stub_syms: b.slots.stub_syms,
        got_syms: b.slots.got_syms,
        thread_ptr_syms: b.slots.thread_ptr_syms,
        ..a.slots
    })
}

proof fn lemma_aux_count_bound(syms: Seq<Symbol>, n: int, id: int)
    requires
        0 <= n <= syms.len(),
    ensures
        0 <= aux_count(syms, n) <= n,
        0 <= id < n && syms[id].aux_idx == NONE ==> aux_count(syms, n) < n,
    decreases n,
{
    if n > 0 {
        lemma_aux_count_bound(syms, n - 1, id);
    }
}

proof fn lemma_aux_count_update(a: Seq<Symbol>, b: Seq<Symbol>, id: int, n: int)
    requires
        0 <= n <= a.len(),
        a.len() == b.len(),
        0 <= id < a.len(),
        a[id].aux_idx == NONE,
        b[id].aux_idx != NONE,
        forall|i: int| 0 <= i < a.len() && i != id ==> (#[trigger] b[i]).aux_idx == a[i].aux_idx,
    ensures
        aux_count(b, n) == aux_count(a, n) + if id < n {
            1int
        } else {
            0int
        },
    decreases n,
{
    if n > 0 {
        lemma_aux_count_update(a, b, id, n - 1);
    }
}

/// Distinct numbers below a bound are no more than the bound.
proof fn lemma_distinct_bound(l: Seq<u32>, n: int)
    requires
        0 <= n,
        l.no_duplicates(),
        forall|k: int| 0 <= k < l.len() ==> (#[trigger] l[k]) < n,
    ensures
        l.len() <= n,
{
    let m = l.map_values(|v: u32| v as int);
    assert(m.no_duplicates());
    m.unique_seq_to_set();
    vstd::set_lib::lemma_int_range(0, n);
    assert(m.to_set().subset_of(vstd::set_lib::set_int_range(0, n))) by {
        assert forall|v: int| m.to_set().contains(v) implies vstd::set_lib::set_int_range(
            0,
            n,
        ).contains(v) by {
            let k = choose|k: int| 0 <= k < m.len() && m[k] == v;
            assert(l[k] < n);
        }
    }
    vstd::set_lib::lemma_len_subset(m.to_set(), vstd::set_lib::set_int_range(0, n));
}

proof fn lemma_list_short(ctx: Context, kind: SlotKind)
    requires
        numbered(ctx, kind),
    ensures
        slot_list(ctx, kind).len() <= ctx.inputs.symtab.syms.len(),
{
    let l = slot_list(ctx, kind);
    assert forall|a: int, b: int| 0 <= a < l.len() && 0 <= b < l.len() && a != b implies l[a]
        != l[b] by {
        assert(slot_idx(ctx, kind, l[a] as int) == a);
        assert(slot_idx(ctx, kind, l[b] as int) == b);
    }
    lemma_distinct_bound(l, ctx.inputs.symtab.syms.len() as int);
}

/// Makes sure that a symbol has a slot entry.
fn ensure_aux(ctx: &mut Context, id: u32)
    requires
        ready(*old(ctx)),
        id < old(ctx).inputs.symtab.syms.len(),
    ensures
        ready(*final(ctx)),
        same_but_slots(*old(ctx), *final(ctx)),
        final(ctx).slots == old(ctx).slots,
        final(ctx).inputs.symtab.syms[id as int].aux_idx != NONE,
        forall|i: int|
            0 <= i < final(ctx).inputs.symtab.syms.len() ==> #[trigger] final(ctx).slots_of(i)
                == old(ctx).slots_of(i),
{
    if ctx.inputs.symtab.syms[id as usize].aux_idx != NONE {
        return ;
    }
    let ghost before = *ctx;
    proof {
        lemma_aux_count_bound(
            before.inputs.symtab.syms@,
            before.inputs.symtab.syms.len() as int,
            id as int,
        );
    }
    let at: u32 = ctx.sym_aux.len() as u32;
    let fresh: SymAux = Default::default();
    ctx.sym_aux.push(fresh);
    ctx.inputs.symtab.syms[id as usize].aux_idx = at;
    proof {
        let a = before.inputs.symtab.syms@;
        let b = ctx.inputs.symtab.syms@;
        lemma_aux_count_update(a, b, id as int, a.len() as int);
        assert forall|i: int| 0 <= i < b.len() implies ctx.sym_ok(#[trigger] b[i]) by {
            assert(before.sym_ok(a[i]));
        }
        assert forall|i: int| 0 <= i < a.len() && i != id implies (#[trigger] b[i]) == a[i] && (
        a[i].aux_idx == NONE || a[i].aux_idx < at) by {
            assert(before.sym_ok(a[i]));
        }
        assert forall|i: int| 0 <= i < b.len() implies #[trigger] ctx.slots_of(i)
            == before.slots_of(i) by {
            assert(before.sym_ok(a[i]));
        }
        assert forall|i: int| 0 <= i < b.len() implies ctx.inputs.sym_ok(#[trigger] b[i]) by {
            assert(before.inputs.sym_ok(a[i]));
        }
        lemma_same_wf(before, *ctx);
        lemma_same_slots(before, *ctx);
    }
}

proof fn lemma_same_wf(a: Context, b: Context)
    requires
        a.inputs.wf(),
        b.inputs == (Inputs { symtab: b.inputs.symtab, ..a.inputs }),
        same_but_aux(a.inputs.symtab.syms@, b.inputs.symtab.syms@),
    ensures
        b.inputs.wf(),
{
    let x = a.inputs;
    let y = b.inputs;
    assert forall|i: int| 0 <= i < x.isecs.len() implies crate::inputs::same_part(
        x.isecs[i],
        #[trigger] y.isecs[i],
    ) && (y.isecs[i].replacement == crate::input_sections::NO_REPLACEMENT
        || y.isecs[i].replacement < y.isecs.len()) by {
        assert(x.isec_ok(x.isecs[i]));
    }
    assert forall|i: int| 0 <= i < y.symtab.syms.len() implies y.sym_ok(
        #[trigger] y.symtab.syms[i],
    ) by {
        assert(x.sym_ok(x.symtab.syms[i]));
        assert(y.symtab.syms@[i] == (Symbol {
            aux_idx: y.symtab.syms@[i].aux_idx,
            ..x.symtab.syms@[i]
        }));
    }
    crate::inputs::lemma_wf_grown(x, y);
}

/// Numbering rests on the symbols' slots alone.
proof fn lemma_same_slots(a: Context, b: Context)
    requires
        ready(a),
        a.slots == b.slots,
        a.inputs.symtab.syms.len() == b.inputs.symtab.syms.len(),
        forall|i: int|
            0 <= i < b.inputs.symtab.syms.len() ==> #[trigger] b.slots_of(i) == a.slots_of(i),
    ensures
        numbered(b, SlotKind::Stub),
        numbered(b, SlotKind::Got),
        numbered(b, SlotKind::ThreadPtr),
        objc_numbered(b),
{
    lemma_same_kind(a, b, SlotKind::Stub);
    lemma_same_kind(a, b, SlotKind::Got);
    lemma_same_kind(a, b, SlotKind::ThreadPtr);
    lemma_same_objc(a, b);
}

proof fn lemma_same_kind(a: Context, b: Context, kind: SlotKind)
    requires
        numbered(a, kind),
        slot_list(a, kind) == slot_list(b, kind),
        a.inputs.symtab.syms.len() == b.inputs.symtab.syms.len(),
        forall|i: int|
            0 <= i < b.inputs.symtab.syms.len() ==> #[trigger] slot_idx(b, kind, i) == slot_idx(
                a,
                kind,
                i,
            ),
    ensures
        numbered(b, kind),
{
    let l = slot_list(b, kind);
    assert forall|id: int|
        0 <= id < b.inputs.symtab.syms.len() && #[trigger] slot_idx(b, kind, id)
            != NO_IDX implies slot_idx(b, kind, id) < l.len() && l[slot_idx(b, kind, id) as int]
        == id by {
        assert(slot_idx(a, kind, id) != NO_IDX);
    }
    assert forall|k: int| 0 <= k < l.len() implies (#[trigger] l[k])
        < b.inputs.symtab.syms.len() && slot_idx(b, kind, l[k] as int) == k by {
        assert(slot_idx(a, kind, l[k] as int) == k);
    }
}

proof fn lemma_same_objc(a: Context, b: Context)
    requires
        objc_numbered(a),
        a.slots.objc_stubs == b.slots.objc_stubs,
        a.inputs.symtab.syms.len() == b.inputs.symtab.syms.len(),
        forall|i: int|
            0 <= i < b.inputs.symtab.syms.len() ==> (#[trigger] b.slots_of(i)).objc_stub
                == a.slots_of(i).objc_stub,
    ensures
        objc_numbered(b),
{
    let l = b.slots.objc_stubs;
    assert forall|id: int|
        0 <= id < b.inputs.symtab.syms.len() && (#[trigger] b.slots_of(id)).objc_stub
            != NO_IDX implies b.slots_of(id).objc_stub < l.len() && l[b.slots_of(
        id,
    ).objc_stub as int].0 == id by {
        assert(a.slots_of(id).objc_stub != NO_IDX);
    }
    assert forall|k: int| 0 <= k < l.len() implies (#[trigger] l[k]).0
        < b.inputs.symtab.syms.len() && b.slots_of(l[k].0 as int).objc_stub == k by {
        assert(a.slots_of(l[k].0 as int).objc_stub == k);
    }
}

/// Whether slots are in order rests on the symbols, their slots and the
/// libraries alone.
pub(crate) proof fn lemma_ready_kept(a: Context, b: Context)
    requires
        ready(a),
        b.inputs.wf(),
        b.inputs.symtab == a.inputs.symtab,
        b.sym_aux == a.sym_aux,
        b.slots == a.slots,
        b.dylibs == a.dylibs,
    ensures
        ready(b),
{
    let syms = b.inputs.symtab.syms;
    assert forall|i: int| 0 <= i < syms.len() implies b.sym_ok(#[trigger] syms[i]) by {
        assert(a.sym_ok(syms[i]));
    }
    assert forall|i: int| 0 <= i < syms.len() implies #[trigger] b.slots_of(i) == a.slots_of(
        i,
    ) by {}
    lemma_same_slots(a, b);
}

/// Sets a symbol's index among the slots of a kind.
fn set_slot(ctx: &mut Context, kind: SlotKind, id: u32, at: u32)
    requires
        refs_exist(*old(ctx)),
        id < old(ctx).inputs.symtab.syms.len(),
        old(ctx).inputs.symtab.syms[id as int].aux_idx != NONE,
    ensures
        refs_exist(*final(ctx)),
        *final(ctx) == (Context { sym_aux: final(ctx).sym_aux, ..*old(ctx) }),
        forall|k: SlotKind, i: int|
            0 <= i < final(ctx).inputs.symtab.syms.len() ==> #[trigger] slot_idx(*final(ctx), k, i)
                == (if k == kind && i == id {
                at
            } else {
                slot_idx(*old(ctx), k, i)
            }),
        forall|i: int|
            0 <= i < final(ctx).inputs.symtab.syms.len() ==> (#[trigger] final(ctx).slots_of(
                i,
            )).objc_stub == old(ctx).slots_of(i).objc_stub,
{
    let ghost before = *ctx;
    proof {
        assert(ctx.sym_ok(ctx.inputs.symtab.syms[id as int]));
    }
    let a: usize = ctx.inputs.symtab.syms[id as usize].aux_idx as usize;
    match kind {
        SlotKind::Stub => {
            ctx.sym_aux[a].stub_idx = at;
        },
        SlotKind::Got => {
            ctx.sym_aux[a].got_idx = at;
        },
        SlotKind::ThreadPtr => {
            ctx.sym_aux[a].tlv_idx = at;
        },
    }
    proof {
        let syms = ctx.inputs.symtab.syms@;
        assert forall|i: int| 0 <= i < syms.len() implies ctx.sym_ok(#[trigger] syms[i]) by {
            assert(before.sym_ok(syms[i]));
        }
        assert forall|i: int| 0 <= i < syms.len() && i != id implies #[trigger] ctx.slots_of(i)
            == before.slots_of(i) by {
            assert(before.sym_ok(syms[i]));
            if i < id {
                assert(syms[i].aux_idx != NONE ==> syms[i].aux_idx != syms[id as int].aux_idx);
            } else {
                assert(syms[id as int].aux_idx != syms[i].aux_idx);
            }
        }
        assert forall|k: SlotKind, i: int|
            0 <= i < syms.len() implies #[trigger] slot_idx(*ctx, k, i) == (if k == kind && i
            == id {
            at
        } else {
            slot_idx(before, k, i)
        }) by {
            if i != id {
                assert(ctx.slots_of(i) == before.slots_of(i));
            }
        }
        assert forall|i: int| 0 <= i < syms.len() implies (#[trigger] ctx.slots_of(i)).objc_stub
            == before.slots_of(i).objc_stub by {}
    }
}

/// Gives a symbol a slot of a kind, unless it has one.
fn add_slot(ctx: &mut Context, kind: SlotKind, id: u32)
    requires
        ready(*old(ctx)),
        id < old(ctx).inputs.symtab.syms.len(),
    ensures
        ready(*final(ctx)),
        same_but_slots(*old(ctx), *final(ctx)),
        slot_list(*final(ctx), kind) == added(slot_list(*old(ctx), kind), id),
        forall|k: SlotKind|
            k != kind ==> #[trigger] slot_list(*final(ctx), k) == slot_list(*old(ctx), k),
{
    let ghost before = *ctx;
    let ghost l0 = slot_list(*ctx, kind);
    let has: bool = match kind {
        SlotKind::Stub => sym_slots(ctx, id).0 != NO_IDX,
        SlotKind::Got => sym_slots(ctx, id).1 != NO_IDX,
        SlotKind::ThreadPtr => sym_slots(ctx, id).2 != NO_IDX,
    };
    if has {
        proof {
            let at = slot_idx(*ctx, kind, id as int);
            assert(l0[at as int] == id);
            assert(l0.contains(id));
        }
        return ;
    }
    proof {
        assert(slot_idx(*ctx, kind, id as int) == NO_IDX);
        lemma_list_short(*ctx, kind);
        if l0.contains(id) {
            let k = choose|k: int| 0 <= k < l0.len() && l0[k] == id;
            assert(slot_idx(*ctx, kind, l0[k] as int) == k);
            assert(false);
        }
    }
    ensure_aux(ctx, id);
    let ghost mid = *ctx;
    let at: u32 = match kind {
        SlotKind::Stub => ctx.slots.stub_syms.len() as u32,
        SlotKind::Got => ctx.slots.got_syms.len() as u32,
        SlotKind::ThreadPtr => ctx.slots.thread_ptr_syms.len() as u32,
    };
    assert(at == l0.len());
    set_slot(ctx, kind, id, at);
    let ghost put = *ctx;
    match kind {
        SlotKind::Stub => {
            ctx.slots.stub_syms.push(id);
        },
        SlotKind::Got => {
            ctx.slots.got_syms.push(id);
        },
        SlotKind::ThreadPtr => {
            ctx.slots.thread_ptr_syms.push(id);
        },
    }
    proof {
        assert(slot_list(*ctx, kind) =~= l0.push(id));
        assert forall|k: SlotKind, i: int|
            0 <= i < ctx.inputs.symtab.syms.len() implies #[trigger] slot_idx(*ctx, k, i)
            == slot_idx(put, k, i) by {}
        assert forall|k: SlotKind, i: int|
            0 <= i < ctx.inputs.symtab.syms.len() implies #[trigger] slot_idx(mid, k, i)
            == slot_idx(before, k, i) by {
            assert(mid.slots_of(i) == before.slots_of(i));
        }
        lemma_added(mid, *ctx, kind, id);
        assert forall|k: SlotKind| k != kind implies #[trigger] slot_list(*ctx, k) == slot_list(
            before,
            k,
        ) && numbered(*ctx, k) by {
            assert(numbered(mid, k));
            assert(slot_list(*ctx, k) == slot_list(mid, k));
            lemma_same_kind(mid, *ctx, k);
        }
        assert forall|i: int| 0 <= i < ctx.inputs.symtab.syms.len() implies (
        #[trigger] ctx.slots_of(i)).objc_stub == mid.slots_of(i).objc_stub by {
            assert(ctx.slots_of(i) == put.slots_of(i));
        }
        lemma_same_objc(mid, *ctx);
        assert(refs_exist(*ctx)) by {
            let syms = ctx.inputs.symtab.syms@;
            assert forall|i: int| 0 <= i < syms.len() implies ctx.sym_ok(#[trigger] syms[i]) by {
                assert(put.sym_ok(syms[i]));
            }
        }
        assert(slot_list(*ctx, SlotKind::Stub) == slot_list(*ctx, SlotKind::Stub));
        assert(slot_list(*ctx, SlotKind::Got) == slot_list(*ctx, SlotKind::Got));
        assert(slot_list(*ctx, SlotKind::ThreadPtr) == slot_list(*ctx, SlotKind::ThreadPtr));
    }
}

/// A new slot at the end of the list keeps the numbering.
proof fn lemma_added(a: Context, b: Context, kind: SlotKind, id: u32)
    requires
        numbered(a, kind),
        a.inputs.symtab.syms.len() == b.inputs.symtab.syms.len(),
        id < a.inputs.symtab.syms.len(),
        slot_idx(a, kind, id as int) == NO_IDX,
        slot_list(b, kind) == slot_list(a, kind).push(id),
        slot_list(a, kind).len() < NO_IDX,
        forall|i: int|
            0 <= i < b.inputs.symtab.syms.len() ==> #[trigger] slot_idx(b, kind, i) == (if i == id {
                slot_list(a, kind).len() as u32
            } else {
                slot_idx(a, kind, i)
            }),
    ensures
        numbered(b, kind),
{
    let l = slot_list(b, kind);
    let l0 = slot_list(a, kind);
    assert forall|k: int| 0 <= k < l.len() implies (#[trigger] l[k])
        < b.inputs.symtab.syms.len() && slot_idx(b, kind, l[k] as int) == k by {
        if k < l0.len() {
            assert(slot_idx(a, kind, l0[k] as int) == k);
            assert(l0[k] != id);
        }
    }
    assert forall|i: int|
        0 <= i < b.inputs.symtab.syms.len() && #[trigger] slot_idx(b, kind, i)
            != NO_IDX implies slot_idx(b, kind, i) < l.len() && l[slot_idx(b, kind, i) as int]
        == i by {
        if i != id {
            assert(slot_idx(a, kind, i) != NO_IDX);
        }
    }
}

/// A symbol's stub, __got and __thread_ptrs indices.
fn sym_slots(ctx: &Context, id: u32) -> (r: (u32, u32, u32))
    requires
        refs_exist(*ctx),
        id < ctx.inputs.symtab.syms.len(),
    ensures
        r.0 == slot_idx(*ctx, SlotKind::Stub, id as int),
        r.1 == slot_idx(*ctx, SlotKind::Got, id as int),
        r.2 == slot_idx(*ctx, SlotKind::ThreadPtr, id as int),
{
    proof {
        assert(ctx.sym_ok(ctx.inputs.symtab.syms[id as int]));
    }
    let a: u32 = ctx.inputs.symtab.syms[id as usize].aux_idx;
    if a == NONE {
        (NO_IDX, NO_IDX, NO_IDX)
    } else {
        let x: &SymAux = &ctx.sym_aux[a as usize];
        (x.stub_idx, x.got_idx, x.tlv_idx)
    }
}

/// True if the symbol resolves to the descriptor of a thread-local variable:
/// a definition in a section of descriptors, or an export listed as
/// thread-local.
pub open spec fn thread_local(ctx: Context, id: int) -> bool {
    let s = ctx.inputs.symtab.syms[id];
    match s.defined_by() {
        Origin::Obj(_) => match s.section() {
            Some(i) => ctx.inputs.header(ctx.inputs.isecs[i as int]).flags & SECTION_TYPE
                == S_THREAD_LOCAL_VARIABLES,
            None => false,
        },
        Origin::Dylib(d) => d != UNSET && crate::util::bytes::views(
            ctx.dylibs[d as int].tlv_exports@,
        ).contains(s.name@),
        _ => false,
    }
}

/// True if the symbol resolves to the descriptor of a thread-local variable.
pub fn is_thread_local_sym(ctx: &Context, id: u32) -> (r: bool)
    requires
        ctx.inputs.wf(),
        id < ctx.inputs.symtab.syms.len(),
        ctx.sym_ok(ctx.inputs.symtab.syms[id as int]),
    ensures
        r == thread_local(*ctx, id as int),
{
    proof {
        assert(ctx.inputs.sym_ok(ctx.inputs.symtab.syms[id as int]));
    }
    let s: &Symbol = &ctx.inputs.symtab.syms[id as usize];
    match s.origin() {
        Origin::Obj(_) => match s.isec() {
            Some(i) => ctx.inputs.hdr_of(i as usize).flags & SECTION_TYPE
                == S_THREAD_LOCAL_VARIABLES,
            None => false,
        },
        Origin::Dylib(d) => d != UNSET && text::holds(
            &ctx.dylibs[d as usize].tlv_exports,
            s.name.as_slice(),
        ),
        _ => false,
    }
}

/// What a relocation asks of its symbol.
#[derive(Clone, Copy, Debug, PartialEq, Eq, Structural)]
pub enum Need {
    Nothing,
    /// A stub, and the __got slot that it jumps through.
    Stub,
    Got,
    ThreadPtr,
    /// A thread-local variable is referenced as ordinary data, or the other
    /// way round.
    Mismatch,
}

/// How a relocation uses its target: a load through the __got that cannot be
/// relaxed is an ordinary reference through it.
pub open spec fn use_of<E: Arch>(s: InputSection, rel: Reloc) -> RelocClass {
    let c = E::class_of(rel.r_type);
    if c == RelocClass::GotLoad && !E::relaxable(s.data@, rel.offset, rel.r_type) {
        RelocClass::Got
    } else {
        c
    }
}

/// What a use asks of a symbol.
pub open spec fn need_of(class: RelocClass, imported: bool, tls: bool) -> Need {
    if tls != (class == RelocClass::Tlv) {
        Need::Mismatch
    } else if class == RelocClass::Branch && imported {
        Need::Stub
    } else if class == RelocClass::Got || (class == RelocClass::GotLoad && imported) {
        Need::Got
    } else if class == RelocClass::Tlv && imported {
        Need::ThreadPtr
    } else {
        Need::Nothing
    }
}

/// What a relocation asks of which symbol.
pub open spec fn reloc_need<E: Arch>(ctx: Context, s: InputSection, rel: Reloc) -> Option<
    (u32, Need),
> {
    match ctx.inputs.target_sym(s.obj, rel) {
        Some(id) => Some(
            (
                id,
                need_of(
                    use_of::<E>(s, rel),
                    ctx.inputs.symtab.syms[id as int].flags.is_imported,
                    thread_local(ctx, id as int),
                ),
            ),
        ),
        None => None,
    }
}

/// What the first `k` relocations of a subsection ask for.
pub open spec fn isec_needs<E: Arch>(ctx: Context, i: int, k: int) -> Seq<(u32, Need)>
    decreases k,
{
    if k <= 0 {
        Seq::empty()
    } else {
        let s = ctx.inputs.isecs[i];
        match reloc_need::<E>(ctx, s, s.relocs[k - 1]) {
            Some(n) => isec_needs::<E>(ctx, i, k - 1).push(n),
            None => isec_needs::<E>(ctx, i, k - 1),
        }
    }
}

/// What the first `n` subsections ask for, as far as they are live.
pub open spec fn needs_to<E: Arch>(ctx: Context, n: int) -> Seq<(u32, Need)>
    decreases n,
{
    if n <= 0 {
        Seq::empty()
    } else if ctx.inputs.isecs[n - 1].is_alive {
        needs_to::<E>(ctx, n - 1) + isec_needs::<E>(
            ctx,
            n - 1,
            ctx.inputs.isecs[n - 1].relocs.len() as int,
        )
    } else {
        needs_to::<E>(ctx, n - 1)
    }
}

/// The lists of symbols with slots.
#[verifier::ext_equal]
pub struct SlotLists {
    pub stubs: Seq<u32>,
    pub gots: Seq<u32>,
    pub tlvs: Seq<u32>,
}

/// The lists of a context.
pub open spec fn lists_of(ctx: Context) -> SlotLists {
    SlotLists {
        stubs: ctx.slots.stub_syms@,
        gots: ctx.slots.got_syms@,
        tlvs: ctx.slots.thread_ptr_syms@,
    }
}

/// The lists once the first `n` needs were met, or the symbol of the first
/// mismatch.
pub open spec fn met(lists: SlotLists, needs: Seq<(u32, Need)>, n: int) -> Result<SlotLists, u32>
    decreases n,
{
    if n <= 0 {
        Ok(lists)
    } else {
        match met(lists, needs, n - 1) {
            Err(e) => Err(e),
            Ok(l) => {
                let (id, need) = needs[n - 1];
                match need {
                    Need::Nothing => Ok(l),
                    Need::Stub => Ok(
                        SlotLists {
                            stubs: added(l.stubs, id),
                            gots: added(l.gots, id),
                            tlvs: l.tlvs,
                        },
                    ),
                    Need::Got => Ok(SlotLists { gots: added(l.gots, id), ..l }),
                    Need::ThreadPtr => Ok(SlotLists { tlvs: added(l.tlvs, id), ..l }),
                    Need::Mismatch => Err(id),
                }
            },
        }
    }
}

proof fn lemma_met_err(lists: SlotLists, needs: Seq<(u32, Need)>, e: u32, a: int, b: int)
    requires
        0 <= a <= b,
        met(lists, needs, a) == Err::<SlotLists, u32>(e),
    ensures
        met(lists, needs, b) == Err::<SlotLists, u32>(e),
    decreases b - a,
{
    if a < b {
        lemma_met_err(lists, needs, e, a, b - 1);
    }
}

/// True when needs are of existing symbols.
pub open spec fn needs_exist(needs: Seq<(u32, Need)>, n: int) -> bool {
    forall|i: int| 0 <= i < needs.len() ==> (#[trigger] needs[i]).0 < n
}

fn find_need<E: Arch>(ctx: &Context, s: &InputSection, rel: &Reloc) -> (r: Option<(u32, Need)>)
    requires
        refs_exist(*ctx),
        s.obj < ctx.inputs.objs.len(),
        ctx.inputs.reloc_ok(s.obj, *rel),
    ensures
        r == reloc_need::<E>(*ctx, *s, *rel),
        r matches Some(n) ==> n.0 < ctx.inputs.symtab.syms.len(),
{
    let id: u32 = match ctx.inputs.reloc_target_sym(s.obj, rel) {
        Some(id) => id,
        None => {
            return None;
        },
    };
    proof {
        assert(ctx.sym_ok(ctx.inputs.symtab.syms[id as int]));
    }
    let mut class: RelocClass = E::classify_reloc(rel.r_type);
    if class == RelocClass::GotLoad && !E::can_relax_got_load(
        s.data.as_slice(),
        rel.offset,
        rel.r_type,
    ) {
        class = RelocClass::Got;
    }
    let imported: bool = ctx.inputs.symtab.syms[id as usize].flags.is_imported;
    let tls: bool = is_thread_local_sym(ctx, id);
    let need: Need = if tls != (class == RelocClass::Tlv) {
        Need::Mismatch
    } else if class == RelocClass::Branch && imported {
        Need::Stub
    } else if class == RelocClass::Got || (class == RelocClass::GotLoad && imported) {
        Need::Got
    } else if class == RelocClass::Tlv && imported {
        Need::ThreadPtr
    } else {
        Need::Nothing
    };
    Some((id, need))
}

fn push_needs<E: Arch>(ctx: &Context, i: usize, out: &mut Vec<(u32, Need)>)
    requires
        refs_exist(*ctx),
        i < ctx.inputs.isecs.len(),
        needs_exist(old(out)@, ctx.inputs.symtab.syms.len() as int),
    ensures
        final(out)@ == old(out)@ + isec_needs::<E>(
            *ctx,
            i as int,
            ctx.inputs.isecs[i as int].relocs.len() as int,
        ),
        needs_exist(final(out)@, ctx.inputs.symtab.syms.len() as int),
{
    let ghost start = out@;
    assert(start + Seq::<(u32, Need)>::empty() =~= start);
    let s: &InputSection = &ctx.inputs.isecs[i];
    let mut k: usize = 0;
    while k < s.relocs.len()
        invariant
            refs_exist(*ctx),
            i < ctx.inputs.isecs.len(),
            *s == ctx.inputs.isecs[i as int],
            k <= s.relocs.len(),
            out@ == start + isec_needs::<E>(*ctx, i as int, k as int),
            needs_exist(out@, ctx.inputs.symtab.syms.len() as int),
        decreases s.relocs.len() - k,
    {
        proof {
            assert(ctx.inputs.isec_ok(ctx.inputs.isecs[i as int]));
            assert(ctx.inputs.reloc_ok(s.obj, s.relocs[k as int]));
        }
        let ghost head = isec_needs::<E>(*ctx, i as int, k as int);
        if let Some(n) = find_need::<E>(ctx, s, &s.relocs[k]) {
            out.push(n);
            assert((start + head).push(n) =~= start + head.push(n));
        }
        k += 1;
    }
}

/// Decides which symbols need a stub or a slot, from how relocations refer
/// to them. `Err` with the first symbol whose references do not agree with
/// whether it is thread-local.
pub fn scan_relocations<E: Arch>(ctx: &mut Context) -> (r: Result<(), u32>)
    requires
        ready(*old(ctx)),
    ensures
        ready(*final(ctx)),
        same_but_slots(*old(ctx), *final(ctx)),
        ({
            let needs = needs_to::<E>(*old(ctx), old(ctx).inputs.isecs.len() as int);
            let want = met(lists_of(*old(ctx)), needs, needs.len() as int);
            match r {
                Ok(()) => want == Ok::<SlotLists, u32>(lists_of(*final(ctx))),
                Err(e) => want == Err::<SlotLists, u32>(e),
            }
        }),
{
    let ghost start = *ctx;
    let mut needs: Vec<(u32, Need)> = Vec::new();
    assert(needs@ =~= Seq::empty());
    let mut n: usize = 0;
    while n < ctx.inputs.isecs.len()
        invariant
            *ctx == start,
            refs_exist(*ctx),
            n <= ctx.inputs.isecs.len(),
            needs@ == needs_to::<E>(start, n as int),
            needs_exist(needs@, ctx.inputs.symtab.syms.len() as int),
        decreases ctx.inputs.isecs.len() - n,
    {
        if ctx.inputs.isecs[n].is_alive {
            push_needs::<E>(ctx, n, &mut needs);
        }
        n += 1;
    }
    let ghost end = needs.len() as int;
    let mut k: usize = 0;
    while k < needs.len()
        invariant
            ready(*ctx),
            same_but_slots(start, *ctx),
            k <= needs.len(),
            end == needs.len(),
            needs_exist(needs@, start.inputs.symtab.syms.len() as int),
            needs@ == needs_to::<E>(start, start.inputs.isecs.len() as int),
            start == *old(ctx),
            met(lists_of(start), needs@, k as int) == Ok::<SlotLists, u32>(lists_of(*ctx)),
        decreases needs.len() - k,
    {
        let (id, need): (u32, Need) = needs[k];
        assert(needs@[k as int].0 < start.inputs.symtab.syms.len());
        match need {
            Need::Nothing => {},
            Need::Stub => {
                let ghost before = *ctx;
                add_slot(ctx, SlotKind::Stub, id);
                let ghost mid = *ctx;
                add_slot(ctx, SlotKind::Got, id);
                proof {
                    assert(slot_list(mid, SlotKind::Got) == slot_list(before, SlotKind::Got));
                    assert(slot_list(mid, SlotKind::ThreadPtr) == slot_list(
                        before,
                        SlotKind::ThreadPtr,
                    ));
                    assert(slot_list(*ctx, SlotKind::Stub) == slot_list(mid, SlotKind::Stub));
                    assert(slot_list(*ctx, SlotKind::ThreadPtr) == slot_list(
                        mid,
                        SlotKind::ThreadPtr,
                    ));
                }
            },
            Need::Got => {
                let ghost before = *ctx;
                add_slot(ctx, SlotKind::Got, id);
                assert(slot_list(*ctx, SlotKind::Stub) == slot_list(before, SlotKind::Stub));
                assert(slot_list(*ctx, SlotKind::ThreadPtr) == slot_list(
                    before,
                    SlotKind::ThreadPtr,
                ));
            },
            Need::ThreadPtr => {
                let ghost before = *ctx;
                add_slot(ctx, SlotKind::ThreadPtr, id);
                assert(slot_list(*ctx, SlotKind::Stub) == slot_list(before, SlotKind::Stub));
                assert(slot_list(*ctx, SlotKind::Got) == slot_list(before, SlotKind::Got));
            },
            Need::Mismatch => {
                proof {
                    lemma_met_err(lists_of(start), needs@, id, k + 1, end);
                }
                return Err(id);
            },
        }
        k += 1;
    }
    Ok(())
}

/// A list with several more symbols.
pub open spec fn all_added(l: Seq<u32>, ids: Seq<u32>, n: int) -> Seq<u32>
    decreases n,
{
    if n <= 0 {
        l
    } else {
        added(all_added(l, ids, n - 1), ids[n - 1])
    }
}

/// Gives symbols __got slots.
fn add_gots(ctx: &mut Context, ids: &Vec<u32>)
    requires
        ready(*old(ctx)),
        forall|i: int|
            0 <= i < ids.len() ==> (#[trigger] ids[i]) < old(ctx).inputs.symtab.syms.len(),
    ensures
        ready(*final(ctx)),
        same_but_slots(*old(ctx), *final(ctx)),
        final(ctx).slots.got_syms@ == all_added(old(ctx).slots.got_syms@, ids@, ids.len() as int),
        final(ctx).slots.stub_syms@ == old(ctx).slots.stub_syms@,
        final(ctx).slots.thread_ptr_syms@ == old(ctx).slots.thread_ptr_syms@,
{
    let ghost start = *ctx;
    let mut n: usize = 0;
    while n < ids.len()
        invariant
            ready(*ctx),
            same_but_slots(start, *ctx),
            n <= ids.len(),
            forall|i: int|
                0 <= i < ids.len() ==> (#[trigger] ids[i]) < start.inputs.symtab.syms.len(),
            ctx.slots.got_syms@ == all_added(start.slots.got_syms@, ids@, n as int),
            ctx.slots.stub_syms@ == start.slots.stub_syms@,
            ctx.slots.thread_ptr_syms@ == start.slots.thread_ptr_syms@,
        decreases ids.len() - n,
    {
        let ghost before = *ctx;
        add_slot(ctx, SlotKind::Got, ids[n]);
        assert(slot_list(*ctx, SlotKind::Stub) == slot_list(before, SlotKind::Stub));
        assert(slot_list(*ctx, SlotKind::ThreadPtr) == slot_list(before, SlotKind::ThreadPtr));
        n += 1;
    }
}

/// The synthesized selector stubs call _objc_msgSend through the __got.
pub fn scan_objc_stubs(ctx: &mut Context)
    requires
        ready(*old(ctx)),
        old(ctx).slots.objc_msgsend_sym matches Some(id) ==> id
            < old(ctx).inputs.symtab.syms.len(),
    ensures
        ready(*final(ctx)),
        same_but_slots(*old(ctx), *final(ctx)),
        final(ctx).slots.got_syms@ == match old(ctx).slots.objc_msgsend_sym {
            Some(id) => added(old(ctx).slots.got_syms@, id),
            None => old(ctx).slots.got_syms@,
        },
        final(ctx).slots.stub_syms@ == old(ctx).slots.stub_syms@,
        final(ctx).slots.thread_ptr_syms@ == old(ctx).slots.thread_ptr_syms@,
{
    if let Some(id) = ctx.slots.objc_msgsend_sym {
        let ghost before = *ctx;
        add_slot(ctx, SlotKind::Got, id);
        assert(slot_list(*ctx, SlotKind::Stub) == slot_list(before, SlotKind::Stub));
        assert(slot_list(*ctx, SlotKind::ThreadPtr) == slot_list(before, SlotKind::ThreadPtr));
    }
}

/// The personality functions of the first `n` unwind records.
pub open spec fn record_pers(x: Inputs, n: int) -> Seq<u32>
    decreases n,
{
    if n <= 0 {
        Seq::empty()
    } else {
        match x.unwind_records[n - 1].personality {
            Some(p) => record_pers(x, n - 1).push(p),
            None => record_pers(x, n - 1),
        }
    }
}

/// The personality functions of all unwind records and of the first `n`
/// CIEs.
pub open spec fn all_pers(x: Inputs, n: int) -> Seq<u32>
    decreases n,
{
    if n <= 0 {
        record_pers(x, x.unwind_records.len() as int)
    } else {
        match x.cies[n - 1].personality {
            Some(p) => all_pers(x, n - 1).push(p),
            None => all_pers(x, n - 1),
        }
    }
}

fn list_pers(x: &Inputs) -> (r: Vec<u32>)
    requires
        x.wf(),
    ensures
        r@ == all_pers(*x, x.cies.len() as int),
        forall|i: int| 0 <= i < r.len() ==> (#[trigger] r[i]) < x.symtab.syms.len(),
{
    let mut r: Vec<u32> = Vec::new();
    assert(r@ =~= Seq::empty());
    let mut n: usize = 0;
    while n < x.unwind_records.len()
        invariant
            x.wf(),
            n <= x.unwind_records.len(),
            r@ == record_pers(*x, n as int),
            forall|i: int| 0 <= i < r.len() ==> (#[trigger] r[i]) < x.symtab.syms.len(),
        decreases x.unwind_records.len() - n,
    {
        proof {
            assert(x.record_ok(x.unwind_records[n as int]));
        }
        if let Some(p) = x.unwind_records[n].personality {
            r.push(p);
        }
        n += 1;
    }
    let mut k: usize = 0;
    while k < x.cies.len()
        invariant
            x.wf(),
            k <= x.cies.len(),
            r@ == all_pers(*x, k as int),
            forall|i: int| 0 <= i < r.len() ==> (#[trigger] r[i]) < x.symtab.syms.len(),
        decreases x.cies.len() - k,
    {
        proof {
            assert(x.cie_ok(x.cies[k as int]));
        }
        if let Some(p) = x.cies[k].personality {
            r.push(p);
        }
        k += 1;
    }
    r
}

/// Personality functions are referenced through the __got.
pub fn scan_unwind_personalities(ctx: &mut Context)
    requires
        ready(*old(ctx)),
    ensures
        ready(*final(ctx)),
        same_but_slots(*old(ctx), *final(ctx)),
        ({
            let ids = all_pers(old(ctx).inputs, old(ctx).inputs.cies.len() as int);
            final(ctx).slots.got_syms@ == all_added(
                old(ctx).slots.got_syms@,
                ids,
                ids.len() as int,
            )
        }),
        final(ctx).slots.stub_syms@ == old(ctx).slots.stub_syms@,
        final(ctx).slots.thread_ptr_syms@ == old(ctx).slots.thread_ptr_syms@,
{
    let ids: Vec<u32> = list_pers(&ctx.inputs);
    add_gots(ctx, &ids);
}

/// Scanning meets every need: a symbol whose stub or slot a live relocation
/// asks for has it afterwards.
pub proof fn lemma_needs_met(lists: SlotLists, needs: Seq<(u32, Need)>, n: int, i: int)
    requires
        0 <= i < n <= needs.len(),
        met(lists, needs, n) is Ok,
    ensures
        ({
            let l = met(lists, needs, n)->Ok_0;
            let (id, need) = needs[i];
            &&& need != Need::Mismatch
            &&& need == Need::Stub ==> l.stubs.contains(id) && l.gots.contains(id)
            &&& need == Need::Got ==> l.gots.contains(id)
            &&& need == Need::ThreadPtr ==> l.tlvs.contains(id)
        }),
    decreases n,
{
    let before = met(lists, needs, n - 1);
    assert(before is Ok);
    let b = before->Ok_0;
    let l = met(lists, needs, n)->Ok_0;
    let last = needs[n - 1].0;
    lemma_added_contains(b.stubs, last);
    lemma_added_contains(b.gots, last);
    lemma_added_contains(b.tlvs, last);
    if i < n - 1 {
        lemma_needs_met(lists, needs, n - 1, i);
    }
}

proof fn lemma_added_contains(l: Seq<u32>, id: u32)
    ensures
        added(l, id).contains(id),
        forall|v: u32| l.contains(v) ==> #[trigger] added(l, id).contains(v),
{
    let a = added(l, id);
    if !l.contains(id) {
        assert(a[l.len() as int] == id);
        assert forall|v: u32| l.contains(v) implies #[trigger] a.contains(v) by {
            let k = choose|k: int| 0 <= k < l.len() && l[k] == v;
            assert(a[k] == v);
        }
    }
}

} // verus!
