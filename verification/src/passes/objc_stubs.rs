//! Provides the _objc_msgSend$<selector> stubs that code calls.
use super::resolve::find_exporter;
use crate::context::{Context, Slots};
use crate::input_files::dylib::strip_prefix;
use crate::input_files::DylibFile;
use crate::inputs::Inputs;
use crate::symbol::{
    Origin, SymAux, SymFlags, SymView, SymbolTable, TableState, KIND_DYLIB, NONE, NO_IDX,
};
use crate::util::bytes;
use vstd::prelude::*;
use vstd::string::*;

verus! {

/// The selector that a stub is asked for, if a symbol is a call of one that
/// nothing defines.
pub open spec fn selector_of(s: SymView) -> Option<Seq<u8>> {
    if s.flags.is_used && s.is_open() {
        crate::input_files::dylib::behind(s.name, "_objc_msgSend$".spec_bytes())
    } else {
        None
    }
}

/// The selector stubs that the first `n` symbols ask for.
pub open spec fn stubs_to(syms: Seq<SymView>, n: int) -> Seq<(u32, Seq<u8>)>
    decreases n,
{
    if n <= 0 {
        Seq::empty()
    } else {
        match selector_of(syms[n - 1]) {
            Some(sel) => stubs_to(syms, n - 1).push(((n - 1) as u32, sel)),
            None => stubs_to(syms, n - 1),
        }
    }
}

/// What a list of selector stubs holds.
pub open spec fn stub_views(v: Seq<(u32, Vec<u8>)>) -> Seq<(u32, Seq<u8>)> {
    v.map_values(|p: (u32, Vec<u8>)| (p.0, p.1@))
}

/// The `i`th symbol with the stub that it asked for.
pub open spec fn with_stub(syms: Seq<SymView>, i: int) -> SymView {
    match selector_of(syms[i]) {
        Some(_) => SymView {
            aux_idx: stubs_to(syms, i).len() as u32,
            ..syms[i].synthetic()
        },
        None => syms[i],
    }
}

/// The symbol that stubs jump to: it is used, and the first library that
/// exports it provides it if nothing else does.
pub open spec fn msgsend_of(s: SymView, dylibs: Seq<DylibFile>) -> SymView {
    let used = SymView { flags: SymFlags { is_used: true, ..s.flags }, ..s };
    match super::resolve::exporter(dylibs, "_objc_msgSend".spec_bytes(), u64::MAX, 0) {
        Some(d) => if s.is_open() {
            SymView {
                kind: KIND_DYLIB,
                file: d as u32,
                flags: SymFlags { is_imported: true, is_extern: true, ..used.flags },
                ..used
            }
        } else {
            used
        },
        None => used,
    }
}

/// The table with the stubs that symbols asked for, and the symbol that the
/// stubs jump to.
pub open spec fn with_stubs(t: TableState, dylibs: Seq<DylibFile>) -> Option<TableState> {
    match t.with_symbol("_objc_msgSend".spec_bytes()) {
        None => None,
        Some(u) => {
            let id = u.ids["_objc_msgSend".spec_bytes()] as int;
            Some(
                TableState {
                    syms: Seq::new(
                        u.syms.len(),
                        |i: int|
                            if i == id {
                                msgsend_of(with_stub(u.syms, i), dylibs)
                            } else {
                                with_stub(u.syms, i)
                            },
                    ),
                    ..u
                },
            )
        },
    }
}

/// The selector strings of the first `n` stubs, each with its terminator.
pub open spec fn selector_data(stubs: Seq<(u32, Seq<u8>)>, n: int) -> Seq<u8>
    decreases n,
{
    if n <= 0 {
        Seq::empty()
    } else {
        selector_data(stubs, n - 1) + stubs[n - 1].1.push(0)
    }
}

/// The state before any slot was given.
pub open spec fn without_slots(ctx: Context) -> bool {
    &&& ctx.inputs.wf()
    &&& ctx.inputs.symtab.wf()
    &&& ctx.sym_aux.len() == 0
    &&& ctx.slots.is_empty()
    &&& forall|i: int|
        0 <= i < ctx.inputs.symtab.syms.len() ==> ctx.sym_ok(
            #[trigger] ctx.inputs.symtab.syms[i],
        )
    &&& ctx.dylibs.len() <= u32::MAX
}

/// What the context is once the stubs were made.
pub open spec fn stubs_made(before: Context, ctx: Context) -> bool {
    let t = before.inputs.symtab.state();
    let stubs = stubs_to(t.syms, t.syms.len() as int);
    &&& ctx == (Context {
        inputs: (Inputs { symtab: ctx.inputs.symtab, ..before.inputs }),
        sym_aux: ctx.sym_aux,
        slots: ctx.slots,
        ..before
    })
    &&& ctx.slots == (Slots {
        objc_stubs: ctx.slots.objc_stubs,
        objc_msgsend_sym: ctx.slots.objc_msgsend_sym,
        objc_methname_data: ctx.slots.objc_methname_data,
        objc_methname_offs: ctx.slots.objc_methname_offs,
        ..before.slots
    })
    &&& stub_views(ctx.slots.objc_stubs@) == stubs
    &&& with_stubs(t, before.dylibs@) == Some(ctx.inputs.symtab.state())
    &&& ctx.inputs.symtab.ids().contains_key("_objc_msgSend".spec_bytes())
    &&& ctx.slots.objc_msgsend_sym == Some(
        ctx.inputs.symtab.ids()["_objc_msgSend".spec_bytes()],
    )
    &&& ctx.slots.objc_methname_data@ == selector_data(stubs, stubs.len() as int)
    &&& ctx.slots.objc_methname_offs.len() == stubs.len()
    &&& forall|k: int|
        0 <= k < stubs.len() ==> #[trigger] ctx.slots.objc_methname_offs[k] == selector_data(
            stubs,
            k,
        ).len()
    &&& ctx.sym_aux.len() == stubs.len()
    &&& forall|k: int|
        0 <= k < stubs.len() ==> {
            &&& (#[trigger] ctx.sym_aux[k]).objc_stub_idx == k
            &&& ctx.sym_aux[k].stub_idx == NO_IDX
            &&& ctx.sym_aux[k].got_idx == NO_IDX
            &&& ctx.sym_aux[k].tlv_idx == NO_IDX
            &&& ctx.sym_aux[k].thunk_addrs.len() == 0
        }
}

proof fn lemma_stubs(syms: Seq<SymView>, n: int)
    requires
        0 <= n <= syms.len() < NONE,
    ensures
        stubs_to(syms, n).len() <= n,
        forall|k: int|
            0 <= k < stubs_to(syms, n).len() ==> {
                let id = (#[trigger] stubs_to(syms, n)[k]).0 as int;
                &&& id < n
                &&& selector_of(syms[id]) == Some(stubs_to(syms, n)[k].1)
                &&& stubs_to(syms, id).len() == k
            },
    decreases n,
{
    if n > 0 {
        lemma_stubs(syms, n - 1);
    }
}

proof fn lemma_stub_place(syms: Seq<SymView>, i: int, n: int)
    requires
        0 <= i < n <= syms.len() < NONE,
        selector_of(syms[i]) is Some,
    ensures
        stubs_to(syms, i).len() < stubs_to(syms, n).len(),
        stubs_to(syms, n)[stubs_to(syms, i).len() as int].0 == i,
    decreases n - i,
{
    if i < n - 1 {
        lemma_stub_place(syms, i, n - 1);
    }
}

proof fn lemma_stubs_prefix(a: Seq<SymView>, b: Seq<SymView>, n: int)
    requires
        0 <= n <= a.len() <= b.len(),
        forall|i: int| 0 <= i < n ==> #[trigger] a[i] == b[i],
    ensures
        stubs_to(a, n) == stubs_to(b, n),
    decreases n,
{
    if n > 0 {
        lemma_stubs_prefix(a, b, n - 1);
    }
}

/// Lists the stubs that symbols ask for.
fn list_stubs(t: &SymbolTable) -> (r: Vec<(u32, Vec<u8>)>)
    requires
        t.syms.len() < NONE,
    ensures
        stub_views(r@) == stubs_to(t.state().syms, t.syms.len() as int),
{
    let ghost syms = t.state().syms;
    let mut r: Vec<(u32, Vec<u8>)> = Vec::new();
    assert(stub_views(r@) =~= Seq::empty());
    let mut n: usize = 0;
    while n < t.syms.len()
        invariant
            n <= t.syms.len(),
            t.syms.len() < NONE,
            syms == t.state().syms,
            stub_views(r@) == stubs_to(syms, n as int),
        decreases t.syms.len() - n,
    {
        assert(syms[n as int] == t.syms[n as int]@);
        if t.syms[n].flags.is_used && !t.syms[n].is_defined() {
            if let Some(sel) = strip_prefix(t.syms[n].name.as_slice(), "_objc_msgSend$".as_bytes())
            {
                let ghost before = r@;
                let ghost sv = sel@;
                r.push((n as u32, sel));
                assert(stub_views(r@) =~= stub_views(before).push((n as u32, sv)));
            }
        }
        n += 1;
    }
    r
}

/// Claims the symbols that ask for stubs.
fn claim_stubs(t: &mut SymbolTable, stubs: &Vec<(u32, Vec<u8>)>) -> (aux: Vec<SymAux>)
    requires
        old(t).wf(),
        stub_views(stubs@) == stubs_to(old(t).state().syms, old(t).syms.len() as int),
    ensures
        final(t).wf(),
        final(t).ids() == old(t).ids(),
        final(t).syms.len() == old(t).syms.len(),
        forall|i: int|
            0 <= i < final(t).syms.len() ==> (#[trigger] final(t).syms[i])@ == with_stub(
                old(t).state().syms,
                i,
            ),
        aux.len() == stubs.len(),
        forall|k: int|
            0 <= k < aux.len() ==> {
                &&& (#[trigger] aux[k]).objc_stub_idx == k
                &&& aux[k].stub_idx == NO_IDX
                &&& aux[k].got_idx == NO_IDX
                &&& aux[k].tlv_idx == NO_IDX
                &&& aux[k].thunk_addrs.len() == 0
            },
{
    let ghost first = *t;
    let ghost syms = t.state().syms;
    let ghost sv = stub_views(stubs@);
    let ghost n = t.syms.len() as int;
    proof {
        lemma_stubs(syms, n);
    }
    let mut aux: Vec<SymAux> = Vec::new();
    while aux.len() < stubs.len()
        invariant
            aux.len() <= stubs.len(),
            first == *old(t),
            first.wf(),
            syms == first.state().syms,
            n == first.syms.len(),
            n < NONE,
            sv == stub_views(stubs@),
            sv == stubs_to(syms, n),
            stubs.len() <= n,
            t.shards == first.shards,
            t.syms.len() == n,
            forall|k: int|
                0 <= k < sv.len() ==> {
                    let id = (#[trigger] sv[k]).0 as int;
                    &&& id < n
                    &&& selector_of(syms[id]) == Some(sv[k].1)
                    &&& stubs_to(syms, id).len() == k
                },
            forall|i: int|
                0 <= i < n ==> (#[trigger] t.syms[i])@ == if selector_of(syms[i]) is Some
                    && stubs_to(syms, i).len() < aux.len() {
                    with_stub(syms, i)
                } else {
                    syms[i]
                },
            forall|k: int|
                0 <= k < aux.len() ==> {
                    &&& (#[trigger] aux[k]).objc_stub_idx == k
                    &&& aux[k].stub_idx == NO_IDX
                    &&& aux[k].got_idx == NO_IDX
                    &&& aux[k].tlv_idx == NO_IDX
                    &&& aux[k].thunk_addrs.len() == 0
                },
        decreases stubs.len() - aux.len(),
    {
        let k: usize = aux.len();
        let id: u32 = stubs[k].0;
        assert(sv[k as int] == (stubs[k as int].0, stubs[k as int].1@));
        let ghost before = t.syms@;
        t.syms[id as usize].set_origin(Origin::Synthetic);
        t.syms[id as usize].aux_idx = k as u32;
        let mut a: SymAux = SymAux::default();
        a.objc_stub_idx = k as u32;
        aux.push(a);
        proof {
            assert forall|i: int| 0 <= i < n implies (#[trigger] t.syms[i])@ == if selector_of(
                syms[i],
            ) is Some && stubs_to(syms, i).len() < aux.len() {
                with_stub(syms, i)
            } else {
                syms[i]
            } by {
                if i == id {
                    assert(before[i]@ == syms[i]);
                } else {
                    assert(t.syms[i] == before[i]);
                    if selector_of(syms[i]) is Some && stubs_to(syms, i).len() == k {
                        lemma_stub_place(syms, i, n);
                    }
                }
            }
        }
    }
    proof {
        assert forall|i: int| 0 <= i < n implies (#[trigger] t.syms[i])@ == with_stub(syms, i) by {
            if selector_of(syms[i]) is Some {
                lemma_stub_place(syms, i, n);
            }
        }
        assert forall|i: int| 0 <= i < n implies (#[trigger] t.syms[i]).name@
            == first.syms[i].name@ by {
            assert(t.syms[i]@ == with_stub(syms, i));
            assert(syms[i] == first.syms[i]@);
        }
        crate::symbol::lemma_names_kept(first, *t);
    }
    aux
}

/// Lets the stubs' target be used and imported.
fn claim_msgsend(t: &mut SymbolTable, id: u32, dylibs: &Vec<DylibFile>)
    requires
        old(t).wf(),
        id < old(t).syms.len(),
        dylibs.len() <= u32::MAX,
    ensures
        final(t).wf(),
        final(t).ids() == old(t).ids(),
        final(t).state().syms == old(t).state().syms.update(
            id as int,
            msgsend_of(old(t).state().syms[id as int], dylibs@),
        ),
{
    let ghost first = *t;
    assert(first.state().syms[id as int] == first.syms[id as int]@);
    let open: bool = !t.syms[id as usize].is_defined();
    t.syms[id as usize].flags.is_used = true;
    if open {
        if let Some(d) = find_exporter(dylibs, "_objc_msgSend".as_bytes(), u64::MAX, 0) {
            t.syms[id as usize].set_origin(Origin::Dylib(d as u32));
            t.syms[id as usize].flags.is_imported = true;
            t.syms[id as usize].flags.is_extern = true;
        }
    }
    proof {
        crate::symbol::lemma_names_kept(first, *t);
        assert(t.state().syms =~= first.state().syms.update(
            id as int,
            msgsend_of(first.state().syms[id as int], dylibs@),
        ));
    }
}

/// Lists the selector strings, and where each starts.
fn list_selectors(stubs: &Vec<(u32, Vec<u8>)>) -> (r: (Vec<u8>, Vec<u64>))
    ensures
        r.0@ == selector_data(stub_views(stubs@), stubs.len() as int),
        r.1.len() == stubs.len(),
        forall|k: int|
            0 <= k < stubs.len() ==> #[trigger] r.1[k] == selector_data(
                stub_views(stubs@),
                k,
            ).len(),
{
    let ghost sv = stub_views(stubs@);
    let mut data: Vec<u8> = Vec::new();
    let mut offs: Vec<u64> = Vec::new();
    while offs.len() < stubs.len()
        invariant
            offs.len() <= stubs.len(),
            sv == stub_views(stubs@),
            data@ == selector_data(sv, offs.len() as int),
            forall|k: int|
                0 <= k < offs.len() ==> #[trigger] offs[k] == selector_data(sv, k).len(),
        decreases stubs.len() - offs.len(),
    {
        let k: usize = offs.len();
        let ghost head = data@;
        let at: u64 = data.len() as u64;
        offs.push(at);
        bytes::append(&mut data, stubs[k].1.as_slice());
        data.push(0);
        assert(sv[k as int].1 == stubs[k as int].1@);
        assert(data@ =~= head + sv[k as int].1.push(0));
    }
    (data, offs)
}

/// Provides the stubs that undefined _objc_msgSend$<selector> calls ask
/// for: each loads its selector and goes on to _objc_msgSend, which the
/// first library that exports it provides. False when there is no room for
/// a symbol.
pub fn create_objc_msgsend_stubs(ctx: &mut Context) -> (r: bool)
    requires
        without_slots(*old(ctx)),
    ensures
        ({
            let t = old(ctx).inputs.symtab.state();
            let any = stubs_to(t.syms, t.syms.len() as int).len() > 0;
            if any {
                if r {
                    stubs_made(*old(ctx), *final(ctx))
                } else {
                    with_stubs(t, old(ctx).dylibs@) is None && *final(ctx) == *old(ctx)
                }
            } else {
                r && *final(ctx) == *old(ctx)
            }
        }),
        super::slots::ready(*final(ctx)),
        final(ctx).inputs.symtab.wf(),
{
    let ghost start = *ctx;
    let ghost t0 = start.inputs.symtab.state();
    let ghost n0 = start.inputs.symtab.syms.len() as int;
    let stubs: Vec<(u32, Vec<u8>)> = list_stubs(&ctx.inputs.symtab);
    if stubs.len() == 0 {
        proof {
            lemma_ready_empty(start);
        }
        return true;
    }
    let id: u32 = match ctx.inputs.symtab.find_or_add("_objc_msgSend".as_bytes()) {
        Some(id) => id,
        None => {
            proof {
                lemma_ready_empty(start);
            }
            return false;
        },
    };
    let ghost t1 = ctx.inputs.symtab.state();
    let ghost n1 = ctx.inputs.symtab.syms.len() as int;
    proof {
        lemma_stubs_prefix(t0.syms, t1.syms, n0);
        if n1 > n0 {
            assert(selector_of(t1.syms[n0]) is None);
            assert(n1 == n0 + 1);
            assert(stubs_to(t1.syms, n1) == stubs_to(t1.syms, n0));
        }
        assert(stubs_to(t1.syms, n1) == stub_views(stubs@));
    }
    let aux: Vec<SymAux> = claim_stubs(&mut ctx.inputs.symtab, &stubs);
    let ghost t2 = ctx.inputs.symtab.state();
    claim_msgsend(&mut ctx.inputs.symtab, id, &ctx.dylibs);
    let ghost t3 = ctx.inputs.symtab.state();
    proof {
        let want = with_stubs(t0, start.dylibs@)->Some_0;
        assert forall|i: int| 0 <= i < n1 implies t3.syms[i] == want.syms[i] by {
            assert(t2.syms[i] == with_stub(t1.syms, i));
        }
        assert(t3.syms =~= want.syms);
        assert(t3.ids =~= want.ids);
    }
    let (data, offs) = list_selectors(&stubs);
    ctx.sym_aux = aux;
    ctx.slots.objc_stubs = stubs;
    ctx.slots.objc_msgsend_sym = Some(id);
    ctx.slots.objc_methname_data = data;
    ctx.slots.objc_methname_offs = offs;
    assert(stubs_made(start, *ctx));
    proof {
        lemma_ready_made(start, *ctx, t1);
    }
    true
}

proof fn lemma_no_aux(syms: Seq<crate::symbol::Symbol>, n: int)
    requires
        0 <= n <= syms.len(),
        forall|i: int| 0 <= i < n ==> (#[trigger] syms[i]).aux_idx == NONE,
    ensures
        super::slots::aux_count(syms, n) == 0,
    decreases n,
{
    if n > 0 {
        lemma_no_aux(syms, n - 1);
    }
}

proof fn lemma_ready_empty(ctx: Context)
    requires
        without_slots(ctx),
    ensures
        super::slots::ready(ctx),
{
    let syms = ctx.inputs.symtab.syms;
    assert forall|i: int| 0 <= i < syms.len() implies (#[trigger] syms[i]).aux_idx == NONE by {
        assert(ctx.sym_ok(syms[i]));
    }
    lemma_no_aux(syms@, syms.len() as int);
}

proof fn lemma_stub_aux(
    syms: Seq<crate::symbol::Symbol>,
    t: Seq<SymView>,
    n: int,
)
    requires
        0 <= n <= syms.len(),
        syms.len() == t.len() < NONE,
        forall|i: int|
            0 <= i < syms.len() ==> ((#[trigger] syms[i]).aux_idx != NONE) == (selector_of(
                t[i],
            ) is Some),
    ensures
        super::slots::aux_count(syms, n) == stubs_to(t, n).len(),
    decreases n,
{
    if n > 0 {
        lemma_stub_aux(syms, t, n - 1);
        assert(syms[n - 1].aux_idx != NONE <==> selector_of(t[n - 1]) is Some);
    }
}

proof fn lemma_ready_made(start: Context, ctx: Context, t1: TableState)
    requires
        without_slots(start),
        stubs_made(start, ctx),
        ctx.inputs.symtab.wf(),
        start.inputs.symtab.state().with_symbol("_objc_msgSend".spec_bytes()) == Some(t1),
        t1.ids["_objc_msgSend".spec_bytes()] < t1.syms.len(),
        stubs_to(t1.syms, t1.syms.len() as int) == stub_views(ctx.slots.objc_stubs@),
    ensures
        super::slots::ready(ctx),
{
    let t0 = start.inputs.symtab.state();
    let t3 = ctx.inputs.symtab.state();
    let syms = ctx.inputs.symtab.syms;
    let n = syms.len() as int;
    let stubs = stubs_to(t1.syms, n);
    let msg = t1.ids["_objc_msgSend".spec_bytes()] as int;
    assert(t3.syms.len() == n);
    assert(t1.syms.len() == n);
    lemma_stubs(t1.syms, n);
    assert forall|i: int| 0 <= i < n implies t1.syms[i].aux_idx == NONE && (
    #[trigger] t1.syms[i]).refs_ok(
        start.inputs.isecs.len() as int,
        start.dylibs.len() as int,
        0,
    ) by {
        if i < t0.syms.len() {
            assert(t1.syms[i] == t0.syms[i]);
            assert(t0.syms[i] == start.inputs.symtab.syms[i]@);
            assert(start.sym_ok(start.inputs.symtab.syms[i]));
            assert(start.inputs.sym_ok(start.inputs.symtab.syms[i]));
        }
    }
    assert forall|i: int| 0 <= i < n implies (#[trigger] syms[i]).aux_idx == (if selector_of(
        t1.syms[i],
    ) is Some {
        stubs_to(t1.syms, i).len() as u32
    } else {
        NONE
    }) && syms[i]@.refs_ok(
        start.inputs.isecs.len() as int,
        start.dylibs.len() as int,
        stubs.len() as int,
    ) by {
        assert(t3.syms[i] == syms[i]@);
        assert(t1.syms[i].refs_ok(
            start.inputs.isecs.len() as int,
            start.dylibs.len() as int,
            0,
        ));
        if selector_of(t1.syms[i]) is Some {
            lemma_stub_place(t1.syms, i, n);
        }
        super::resolve::lemma_exporter_range(
            start.dylibs@,
            "_objc_msgSend".spec_bytes(),
            u64::MAX,
            0,
        );
    }
    assert forall|i: int| 0 <= i < n implies ctx.sym_ok(#[trigger] syms[i]) && ctx.inputs.sym_ok(
        syms[i],
    ) by {
        assert(syms[i]@.refs_ok(
            start.inputs.isecs.len() as int,
            start.dylibs.len() as int,
            stubs.len() as int,
        ));
    }
    assert forall|i: int| 0 <= i < start.inputs.isecs.len() implies crate::inputs::same_part(
        start.inputs.isecs[i],
        #[trigger] ctx.inputs.isecs[i],
    ) && (ctx.inputs.isecs[i].replacement == crate::input_sections::NO_REPLACEMENT
        || ctx.inputs.isecs[i].replacement < ctx.inputs.isecs.len()) by {
        assert(start.inputs.isec_ok(start.inputs.isecs[i]));
    }
    assert(t0.syms.len() == start.inputs.symtab.syms.len());
    crate::inputs::lemma_wf_grown(start.inputs, ctx.inputs);
    assert forall|i: int| 0 <= i < n implies ((#[trigger] syms[i]).aux_idx != NONE) == (selector_of(
        t1.syms[i],
    ) is Some) by {
        if selector_of(t1.syms[i]) is Some {
            lemma_stub_place(t1.syms, i, n);
        }
    }
    lemma_stub_aux(syms@, t1.syms, n);
    assert forall|a: int, b: int|
        0 <= a < b < n && (#[trigger] syms[a]).aux_idx != NONE implies syms[a].aux_idx != (
    #[trigger] syms[b]).aux_idx by {
        if syms[b].aux_idx != NONE {
            lemma_stub_place(t1.syms, a, b);
            lemma_stub_place(t1.syms, b, n);
        }
    }
    assert forall|i: int| 0 <= i < n implies {
        let x = #[trigger] ctx.slots_of(i);
        &&& x.stub == NO_IDX
        &&& x.got == NO_IDX
        &&& x.tlv == NO_IDX
        &&& x.objc_stub == syms[i].aux_idx
    } by {
        if syms[i].aux_idx != NONE {
            lemma_stub_place(t1.syms, i, n);
            let x = ctx.sym_aux[syms[i].aux_idx as int];
        }
    }
    assert forall|id: int| 0 <= id < n && (#[trigger] ctx.slots_of(id)).objc_stub
        != NO_IDX implies ctx.slots_of(id).objc_stub < ctx.slots.objc_stubs.len()
        && ctx.slots.objc_stubs[ctx.slots_of(id).objc_stub as int].0 == id by {
        lemma_stub_place(t1.syms, id, n);
        let k = stubs_to(t1.syms, id).len() as int;
        assert(stub_views(ctx.slots.objc_stubs@)[k].0 == ctx.slots.objc_stubs[k].0);
    }
    assert forall|k: int| 0 <= k < ctx.slots.objc_stubs.len() implies (
    #[trigger] ctx.slots.objc_stubs[k]).0 < n && ctx.slots_of(
        ctx.slots.objc_stubs[k].0 as int,
    ).objc_stub == k by {
        assert(stub_views(ctx.slots.objc_stubs@)[k].0 == ctx.slots.objc_stubs[k].0);
        let id = stubs[k].0 as int;
        assert(ctx.slots_of(id).objc_stub == syms[id].aux_idx);
    }
}

} // verus!
