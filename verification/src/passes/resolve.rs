//! Symbol resolution.
//!
//! Every input including each archive member has been parsed already.
//! Resolution ranks competing definitions (strong, weak, lazy archive member
//! or dylib, common), breaking ties by input order. A liveness walk then
//! marks the archive members whose definitions are actually referenced, and
//! a second round restricted to live files settles the final owners.
use crate::input_files::{find_subsec, DylibFile, ObjectFile};
use crate::input_sections::InputSection;
use crate::macho::consts::{
    N_ABS, N_NO_DEAD_STRIP, N_SECT, N_UNDF, N_WEAK_DEF, N_WEAK_REF, REFERENCED_DYNAMICALLY,
};
use crate::macho::NList;
use crate::symbol::{Origin, SymFlags, Symbol};
use crate::util::bytes;
use crate::util::graph;
use vstd::prelude::*;

verus! {

/// A global symbol table entry of an object that takes part in a round.
#[derive(Clone, Copy, Debug)]
pub struct Entry {
    /// The object's index.
    pub obj: usize,
    pub nlist: NList,
    /// The symbol that the entry is about.
    pub sym: u32,
    pub alive: bool,
    pub hidden: bool,
    pub priority: u32,
}

/// The entry of an object's `k`th symbol.
pub open spec fn entry_of(objs: Seq<ObjectFile>, o: int, k: int) -> Entry {
    Entry {
        obj: o as usize,
        nlist: objs[o].nlists[k],
        sym: objs[o].syms[k],
        alive: objs[o].is_alive,
        hidden: objs[o].hidden,
        priority: objs[o].priority,
    }
}

/// True for a symbol table entry that other objects can see.
pub open spec fn is_global(n: NList) -> bool {
    !n.stab() && n.external()
}

/// The global entries among the first `k` of object `o`.
pub open spec fn obj_entries(objs: Seq<ObjectFile>, o: int, k: int) -> Seq<Entry>
    decreases k,
{
    if k <= 0 {
        Seq::empty()
    } else if is_global(objs[o].nlists[k - 1]) {
        obj_entries(objs, o, k - 1).push(entry_of(objs, o, k - 1))
    } else {
        obj_entries(objs, o, k - 1)
    }
}

/// The global entries of the first `n` objects, or of those that are alive.
pub open spec fn entries_to(objs: Seq<ObjectFile>, only_alive: bool, n: int) -> Seq<Entry>
    decreases n,
{
    if n <= 0 {
        Seq::empty()
    } else if only_alive && !objs[n - 1].is_alive {
        entries_to(objs, only_alive, n - 1)
    } else {
        entries_to(objs, only_alive, n - 1) + obj_entries(
            objs,
            n - 1,
            objs[n - 1].nlists.len() as int,
        )
    }
}

/// True when the objects refer to existing symbols and subsections.
pub open spec fn objs_ok(objs: Seq<ObjectFile>, isecs: Seq<InputSection>, nsyms: int) -> bool {
    &&& objs.len() < u32::MAX
    &&& isecs.len() < u32::MAX
    &&& forall|o: int|
        0 <= o < objs.len() ==> {
            &&& (#[trigger] objs[o]).nlists.len() == objs[o].syms.len()
            &&& forall|k: int| 0 <= k < objs[o].syms.len() ==> (#[trigger] objs[o].syms[k]) < nsyms
            &&& crate::input_files::subsecs_exist(isecs, objs[o].subsecs@)
            &&& crate::input_files::in_address_order(
                crate::input_files::extents(isecs, objs[o].subsecs@),
            )
        }
}

/// True when the entries refer to existing symbols and objects.
pub open spec fn entries_ok(entries: Seq<Entry>, nobjs: int, nsyms: int) -> bool {
    forall|k: int|
        0 <= k < entries.len() ==> (#[trigger] entries[k]).sym < nsyms && entries[k].obj < nobjs
}

/// Lists the global entries of the objects that take part in a round.
fn list_entries(objs: &Vec<ObjectFile>, only_alive: bool, Ghost(nsyms): Ghost<int>, Ghost(
    isecs,
): Ghost<Seq<InputSection>>) -> (r: Vec<Entry>)
    requires
        objs_ok(objs@, isecs, nsyms),
    ensures
        r@ == entries_to(objs@, only_alive, objs.len() as int),
        entries_ok(r@, objs.len() as int, nsyms),
{
    let mut out: Vec<Entry> = Vec::new();
    let mut o: usize = 0;
    while o < objs.len()
        invariant
            o <= objs.len(),
            objs_ok(objs@, isecs, nsyms),
            out@ == entries_to(objs@, only_alive, o as int),
            entries_ok(out@, objs.len() as int, nsyms),
        decreases objs.len() - o,
    {
        if !only_alive || objs[o].is_alive {
            let ghost start = out@;
            let mut k: usize = 0;
            assert(start + Seq::<Entry>::empty() =~= start);
            while k < objs[o].nlists.len()
                invariant
                    o < objs.len(),
                    k <= objs[o as int].nlists.len(),
                    objs_ok(objs@, isecs, nsyms),
                    out@ == start + obj_entries(objs@, o as int, k as int),
                    entries_ok(out@, objs.len() as int, nsyms),
                decreases objs[o as int].nlists.len() - k,
            {
                assert(objs@[o as int].nlists.len() == objs@[o as int].syms.len());
                let nlist: NList = objs[o].nlists[k];
                if !nlist.is_stab() && nlist.is_extern() {
                    let e = Entry {
                        obj: o,
                        nlist,
                        sym: objs[o].syms[k],
                        alive: objs[o].is_alive,
                        hidden: objs[o].hidden,
                        priority: objs[o].priority,
                    };
                    let ghost before = out@;
                    assert(objs@[o as int].syms[k as int] < nsyms);
                    out.push(e);
                    proof {
                        assert(e == entry_of(objs@, o as int, k as int));
                        assert(out@ =~= start + obj_entries(objs@, o as int, k as int).push(e));
                        assert forall|j: int| 0 <= j < out.len() implies (#[trigger] out@[j]).sym
                            < nsyms && out@[j].obj < objs.len() by {
                            if j < before.len() {
                                assert(out@[j] == before[j]);
                            }
                        }
                    }
                }
                k += 1;
            }
        }
        o += 1;
    }
    out
}

/// The class of a definition: strong, weak, lazy or common.
pub open spec fn class_of(e: Entry) -> Option<u64> {
    let k = e.nlist.kind();
    if k == N_SECT || k == N_ABS {
        if !e.alive {
            Some(2)
        } else if e.nlist.n_desc & N_WEAK_DEF != 0 {
            Some(1)
        } else {
            Some(0)
        }
    } else if k == N_UNDF && e.nlist.common() && e.alive {
        Some(3)
    } else {
        None
    }
}

/// The rank of a definition: by class, then by input order. Lower is better.
pub open spec fn rank_of(e: Entry) -> Option<u64> {
    match class_of(e) {
        Some(c) => Some((c * 0x1_0000_0000 + e.priority) as u64),
        None => None,
    }
}

/// Ranks a definition.
fn rank(e: &Entry) -> (r: Option<u64>)
    ensures
        r == rank_of(*e),
        r matches Some(v) ==> v < 0x4_0000_0000,
{
    let k: u8 = e.nlist.n_type();
    let class: u64 = if k == N_SECT || k == N_ABS {
        if !e.alive {
            2
        } else if e.nlist.n_desc & N_WEAK_DEF != 0 {
            1
        } else {
            0
        }
    } else if k == N_UNDF && e.nlist.is_common() && e.alive {
        3
    } else {
        return None;
    };
    Some(class * 0x1_0000_0000 + e.priority as u64)
}

/// The best rank of a definition of `id` among the first `n` entries.
pub open spec fn best_rank(entries: Seq<Entry>, id: int, n: int) -> u64
    decreases n,
{
    if n <= 0 {
        u64::MAX
    } else {
        let before = best_rank(entries, id, n - 1);
        match rank_of(entries[n - 1]) {
            Some(r) => if entries[n - 1].sym == id && r < before {
                r
            } else {
                before
            },
            None => before,
        }
    }
}

/// The best rank is not above that of any definition.
pub proof fn lemma_best_rank(entries: Seq<Entry>, id: int, n: int, k: int)
    requires
        0 <= k < n <= entries.len(),
        entries[k].sym == id,
        rank_of(entries[k]) is Some,
    ensures
        best_rank(entries, id, n) <= rank_of(entries[k])->0,
    decreases n,
{
    if k < n - 1 {
        lemma_best_rank(entries, id, n - 1, k);
    }
}

/// Finds the best rank for each symbol.
fn find_best(entries: &Vec<Entry>, nsyms: usize) -> (r: Vec<u64>)
    requires
        forall|k: int| 0 <= k < entries.len() ==> (#[trigger] entries[k]).sym < nsyms,
    ensures
        r.len() == nsyms,
        forall|i: int|
            0 <= i < nsyms ==> #[trigger] r[i] == best_rank(entries@, i, entries.len() as int),
{
    let mut best: Vec<u64> = Vec::new();
    while best.len() < nsyms
        invariant
            best.len() <= nsyms,
            forall|i: int| 0 <= i < best.len() ==> #[trigger] best[i] == u64::MAX,
        decreases nsyms - best.len(),
    {
        best.push(u64::MAX);
    }
    let mut k: usize = 0;
    while k < entries.len()
        invariant
            k <= entries.len(),
            best.len() == nsyms,
            forall|k: int| 0 <= k < entries.len() ==> (#[trigger] entries[k]).sym < nsyms,
            forall|i: int|
                0 <= i < nsyms ==> #[trigger] best[i] == best_rank(entries@, i, k as int),
        decreases entries.len() - k,
    {
        let id: usize = entries[k].sym as usize;
        match rank(&entries[k]) {
            Some(v) => {
                if v < best[id] {
                    best.set(id, v);
                }
            },
            None => {},
        }
        k += 1;
    }
    best
}

/// A symbol claimed by a definition at a place. The flag is false when the
/// definition is in a section that is not kept: the symbol then resolves as
/// if it were undefined.
pub open spec fn claimed_symbol(s: Symbol, e: Entry, place: Option<(usize, u64)>) -> (
    Symbol,
    bool,
) {
    let base = Symbol {
        flags: SymFlags {
            is_extern: true,
            is_imported: false,
            is_common: false,
            is_weak_def: e.nlist.n_desc & N_WEAK_DEF != 0,
            is_private_extern: e.nlist.private_external() || e.hidden,
            no_dead_strip: e.nlist.n_desc & (N_NO_DEAD_STRIP | REFERENCED_DYNAMICALLY) != 0,
            ..s.flags
        },
        ..s
    };
    if e.nlist.kind() == N_ABS {
        (
            Symbol {
                value: e.nlist.n_value,
                ..base.with_origin(Origin::Obj(e.obj as u32)).with_isec(None)
            },
            true,
        )
    } else if e.nlist.kind() == N_SECT {
        match place {
            Some((isec, off)) => (
                Symbol {
                    value: off,
                    ..base.with_origin(Origin::Obj(e.obj as u32)).with_isec(Some(isec as u32))
                },
                true,
            ),
            None => (base.with_origin(Origin::Undef), false),
        }
    } else {
        let undef = base.with_origin(Origin::Undef);
        (
            Symbol {
                value: e.nlist.n_value,
                common_p2align: (e.nlist.n_desc / 256 % 16) as u8,
                flags: SymFlags { is_common: true, ..undef.flags },
                ..undef
            },
            true,
        )
    }
}

/// Claims a symbol.
fn claim(s: &mut Symbol, e: &Entry, place: Option<(usize, u64)>) -> (ok: bool)
    ensures
        claimed_symbol(*old(s), *e, place) == (*final(s), ok),
{
    s.flags = SymFlags {
        is_extern: true,
        is_imported: false,
        is_common: false,
        is_weak_def: e.nlist.n_desc & N_WEAK_DEF != 0,
        is_private_extern: e.nlist.is_private_extern() || e.hidden,
        no_dead_strip: e.nlist.n_desc & (N_NO_DEAD_STRIP | REFERENCED_DYNAMICALLY) != 0,
        ..s.flags
    };
    if e.nlist.n_type() == N_ABS {
        s.set_origin(Origin::Obj(e.obj as u32));
        s.set_isec(None);
        s.value = e.nlist.n_value;
        true
    } else if e.nlist.n_type() == N_SECT {
        match place {
            Some((isec, off)) => {
                s.set_origin(Origin::Obj(e.obj as u32));
                s.set_isec(Some(isec as u32));
                s.value = off;
                true
            },
            None => {
                s.set_origin(Origin::Undef);
                false
            },
        }
    } else {
        s.set_origin(Origin::Undef);
        s.flags = SymFlags { is_common: true, ..s.flags };
        s.value = e.nlist.n_value;
        s.common_p2align = (e.nlist.n_desc / 256 % 16) as u8;
        true
    }
}

/// What the claims of a round have settled: the symbols, the ranks that won,
/// and the duplicate definitions (symbol, object).
#[verifier::ext_equal]
pub struct Claims {
    pub syms: Seq<Symbol>,
    pub best: Seq<u64>,
    pub dups: Seq<(u32, usize)>,
}

/// Where an entry's definition is.
pub open spec fn place_of(objs: Seq<ObjectFile>, isecs: Seq<InputSection>, e: Entry) -> Option<
    (usize, u64),
> {
    crate::input_files::subsec_at(isecs, objs[e.obj as int].subsecs@, e.nlist.n_value)
}

/// What one entry's claim settles: it takes the symbol if its rank is the
/// best. Two live strong definitions of one name are an error whichever
/// wins.
pub open spec fn claim_step(
    objs: Seq<ObjectFile>,
    isecs: Seq<InputSection>,
    only_alive: bool,
    e: Entry,
    c: Claims,
) -> Claims {
    let id = e.sym as int;
    match rank_of(e) {
        None => c,
        Some(r) => if c.best[id] != r {
            if only_alive && r < 0x1_0000_0000 && c.best[id] < 0x1_0000_0000 {
                Claims { dups: c.dups.push((e.sym, e.obj)), ..c }
            } else {
                c
            }
        } else {
            let (s, ok) = claimed_symbol(c.syms[id], e, place_of(objs, isecs, e));
            Claims {
                syms: c.syms.update(id, s),
                best: if ok {
                    c.best
                } else {
                    c.best.update(id, u64::MAX)
                },
                ..c
            }
        },
    }
}

/// What the claims of the first `n` entries settle.
pub open spec fn claims_to(
    objs: Seq<ObjectFile>,
    isecs: Seq<InputSection>,
    only_alive: bool,
    entries: Seq<Entry>,
    start: Claims,
    n: int,
) -> Claims
    decreases n,
{
    if n <= 0 {
        start
    } else {
        claim_step(
            objs,
            isecs,
            only_alive,
            entries[n - 1],
            claims_to(objs, isecs, only_alive, entries, start, n - 1),
        )
    }
}

/// Lets each entry claim the symbol whose race it won.
fn claim_all(
    objs: &Vec<ObjectFile>,
    isecs: &Vec<InputSection>,
    only_alive: bool,
    entries: &Vec<Entry>,
    syms: &mut Vec<Symbol>,
    best: &mut Vec<u64>,
) -> (dups: Vec<(u32, usize)>)
    requires
        objs_ok(objs@, isecs@, old(syms).len() as int),
        entries_ok(entries@, objs.len() as int, old(syms).len() as int),
        old(best).len() == old(syms).len(),
    ensures
        (Claims { syms: final(syms)@, best: final(best)@, dups: dups@ }) == claims_to(
            objs@,
            isecs@,
            only_alive,
            entries@,
            Claims { syms: old(syms)@, best: old(best)@, dups: Seq::empty() },
            entries.len() as int,
        ),
        final(syms).len() == old(syms).len(),
        final(best).len() == old(best).len(),
{
    let ghost n = syms.len();
    let ghost start = Claims { syms: syms@, best: best@, dups: Seq::empty() };
    let mut dups: Vec<(u32, usize)> = Vec::new();
    let mut k: usize = 0;
    assert((Claims { syms: syms@, best: best@, dups: dups@ }) =~= start);
    while k < entries.len()
        invariant
            k <= entries.len(),
            objs_ok(objs@, isecs@, n as int),
            entries_ok(entries@, objs.len() as int, n as int),
            syms.len() == n,
            best.len() == n,
            (Claims { syms: syms@, best: best@, dups: dups@ }) == claims_to(
                objs@,
                isecs@,
                only_alive,
                entries@,
                start,
                k as int,
            ),
        decreases entries.len() - k,
    {
        let e: Entry = entries[k];
        assert(entries@[k as int].sym < n && entries@[k as int].obj < objs.len());
        let id: usize = e.sym as usize;
        let ghost before = Claims { syms: syms@, best: best@, dups: dups@ };
        match rank(&e) {
            None => {},
            Some(r) => {
                if best[id] != r {
                    if only_alive && r < 0x1_0000_0000 && best[id] < 0x1_0000_0000 {
                        dups.push((e.sym, e.obj));
                    }
                } else {
                    assert(objs@[e.obj as int].nlists.len() == objs@[e.obj as int].syms.len());
                    let place: Option<(usize, u64)> = find_subsec(
                        isecs.as_slice(),
                        objs[e.obj].subsecs.as_slice(),
                        e.nlist.n_value,
                    );
                    let ok: bool = claim(&mut syms[id], &e, place);
                    if !ok {
                        best.set(id, u64::MAX);
                    }
                }
            },
        }
        assert((Claims { syms: syms@, best: best@, dups: dups@ }) =~= claim_step(
            objs@,
            isecs@,
            only_alive,
            e,
            before,
        ));
        k += 1;
    }
    dups
}

/// A common symbol's size and alignment with those of another definition.
pub open spec fn merged_common(s: Symbol, e: Entry) -> Symbol {
    let p2 = (e.nlist.n_desc / 256 % 16) as u8;
    Symbol {
        value: if s.value < e.nlist.n_value {
            e.nlist.n_value
        } else {
            s.value
        },
        common_p2align: if s.common_p2align < p2 {
            p2
        } else {
            s.common_p2align
        },
        ..s
    }
}

/// True for a common definition of a symbol that is settled as common.
pub open spec fn is_common_claim(e: Entry, best: Seq<u64>) -> bool {
    &&& e.alive
    &&& e.nlist.kind() == N_UNDF
    &&& e.nlist.common()
    &&& best[e.sym as int] / 0x1_0000_0000 == 3
}

/// The symbols with the largest size and strictest alignment of all their
/// common definitions among the first `n` entries.
pub open spec fn commons_to(entries: Seq<Entry>, best: Seq<u64>, syms: Seq<Symbol>, n: int) -> Seq<
    Symbol,
>
    decreases n,
{
    if n <= 0 {
        syms
    } else {
        let before = commons_to(entries, best, syms, n - 1);
        let e = entries[n - 1];
        if is_common_claim(e, best) {
            before.update(e.sym as int, merged_common(before[e.sym as int], e))
        } else {
            before
        }
    }
}

fn merge_commons(entries: &Vec<Entry>, best: &Vec<u64>, syms: &mut Vec<Symbol>)
    requires
        forall|k: int| 0 <= k < entries.len() ==> (#[trigger] entries[k]).sym < old(syms).len(),
        best.len() == old(syms).len(),
    ensures
        final(syms)@ == commons_to(entries@, best@, old(syms)@, entries.len() as int),
        final(syms).len() == old(syms).len(),
{
    let ghost start = syms@;
    let mut k: usize = 0;
    while k < entries.len()
        invariant
            k <= entries.len(),
            syms.len() == start.len(),
            best.len() == start.len(),
            forall|k: int| 0 <= k < entries.len() ==> (#[trigger] entries[k]).sym < start.len(),
            syms@ == commons_to(entries@, best@, start, k as int),
        decreases entries.len() - k,
    {
        let e: Entry = entries[k];
        let id: usize = e.sym as usize;
        let ghost before = syms@;
        if e.alive && e.nlist.n_type() == N_UNDF && e.nlist.is_common() && best[id] / 0x1_0000_0000
            == 3 {
            let p2: u8 = (e.nlist.n_desc / 256 % 16) as u8;
            if syms[id].value < e.nlist.n_value {
                syms[id].value = e.nlist.n_value;
            }
            if syms[id].common_p2align < p2 {
                syms[id].common_p2align = p2;
            }
            assert(syms@ =~= before.update(id as int, merged_common(before[id as int], e)));
        }
        k += 1;
    }
}

/// True when one of the first `n` entries refers to the symbol without
/// defining it (weakly, if asked).
pub open spec fn referenced(entries: Seq<Entry>, id: int, weakly: bool, n: int) -> bool {
    exists|k: int|
        0 <= k < n && (#[trigger] entries[k]).sym == id && entries[k].nlist.kind() == N_UNDF && (
        weakly ==> entries[k].nlist.n_desc & N_WEAK_REF != 0)
}

/// True for a symbol that the round's files or the command line refer to.
pub open spec fn is_used(entries: Seq<Entry>, roots: Seq<u32>, id: int) -> bool {
    referenced(entries, id, false, entries.len() as int) || roots.contains(id as u32)
}

/// Finds which symbols are referred to: (at all, weakly).
fn find_used(entries: &Vec<Entry>, roots: &Vec<u32>, nsyms: usize) -> (r: (Vec<bool>, Vec<bool>))
    requires
        forall|k: int| 0 <= k < entries.len() ==> (#[trigger] entries[k]).sym < nsyms,
        forall|k: int| 0 <= k < roots.len() ==> (#[trigger] roots[k]) < nsyms,
        nsyms <= u32::MAX,
    ensures
        r.0.len() == nsyms,
        r.1.len() == nsyms,
        forall|i: int| 0 <= i < nsyms ==> #[trigger] r.0[i] == is_used(entries@, roots@, i),
        forall|i: int|
            0 <= i < nsyms ==> #[trigger] r.1[i] == referenced(
                entries@,
                i,
                true,
                entries.len() as int,
            ),
{
    let mut used: Vec<bool> = Vec::new();
    let mut weak: Vec<bool> = Vec::new();
    while used.len() < nsyms
        invariant
            used.len() <= nsyms,
            weak.len() == used.len(),
            forall|i: int| 0 <= i < used.len() ==> !#[trigger] used[i],
            forall|i: int| 0 <= i < weak.len() ==> !#[trigger] weak[i],
        decreases nsyms - used.len(),
    {
        used.push(false);
        weak.push(false);
    }
    let mut k: usize = 0;
    while k < entries.len()
        invariant
            k <= entries.len(),
            used.len() == nsyms,
            weak.len() == nsyms,
            forall|k: int| 0 <= k < entries.len() ==> (#[trigger] entries[k]).sym < nsyms,
            forall|i: int|
                0 <= i < nsyms ==> #[trigger] used[i] == referenced(entries@, i, false, k as int),
            forall|i: int|
                0 <= i < nsyms ==> #[trigger] weak[i] == referenced(entries@, i, true, k as int),
        decreases entries.len() - k,
    {
        let e: Entry = entries[k];
        let id: usize = e.sym as usize;
        let ghost before = (used@, weak@);
        if e.nlist.n_type() == N_UNDF {
            used.set(id, true);
            if e.nlist.n_desc & N_WEAK_REF != 0 {
                weak.set(id, true);
            }
        }
        proof {
            assert forall|i: int, w: bool| 0 <= i < nsyms implies #[trigger] referenced(
                entries@,
                i,
                w,
                k + 1,
            ) == (referenced(entries@, i, w, k as int) || (e.sym == i && e.nlist.kind() == N_UNDF
                && (w ==> e.nlist.n_desc & N_WEAK_REF != 0))) by {
                assert(entries@[k as int] == e);
                if referenced(entries@, i, w, k as int) {
                    let j = choose|j: int|
                        0 <= j < k && (#[trigger] entries@[j]).sym == i
                            && entries@[j].nlist.kind() == N_UNDF && (w
                            ==> entries@[j].nlist.n_desc & N_WEAK_REF != 0);
                    assert(entries@[j].sym == i);
                }
            }
            assert forall|i: int| 0 <= i < nsyms implies #[trigger] used[i] == referenced(
                entries@,
                i,
                false,
                k + 1,
            ) by {
                assert(before.0[i] == referenced(entries@, i, false, k as int));
            }
            assert forall|i: int| 0 <= i < nsyms implies #[trigger] weak[i] == referenced(
                entries@,
                i,
                true,
                k + 1,
            ) by {
                assert(before.1[i] == referenced(entries@, i, true, k as int));
            }
        }
        k += 1;
    }
    let ghost by_files = used@;
    let mut r: usize = 0;
    while r < roots.len()
        invariant
            r <= roots.len(),
            nsyms <= u32::MAX,
            used.len() == nsyms,
            by_files.len() == nsyms,
            forall|k: int| 0 <= k < roots.len() ==> (#[trigger] roots[k]) < nsyms,
            forall|i: int|
                0 <= i < nsyms ==> #[trigger] used[i] == (by_files[i] || roots@.take(
                    r as int,
                ).contains(i as u32)),
        decreases roots.len() - r,
    {
        let ghost before = used@;
        used.set(roots[r] as usize, true);
        proof {
            let a = roots@.take(r as int);
            let b = roots@.take(r + 1);
            assert(b =~= a.push(roots[r as int]));
            assert forall|i: int| 0 <= i < nsyms implies #[trigger] used[i] == (by_files[i]
                || b.contains(i as u32)) by {
                assert(before[i] == (by_files[i] || a.contains(i as u32)));
                if a.contains(i as u32) {
                    let j = choose|j: int| 0 <= j < a.len() && a[j] == i as u32;
                    assert(b[j] == i as u32);
                }
                if b.contains(i as u32) {
                    let j = choose|j: int| 0 <= j < b.len() && b[j] == i as u32;
                    if j < r {
                        assert(a[j] == i as u32);
                    }
                }
                if i == roots[r as int] {
                    assert(b[r as int] == i as u32);
                }
            }
        }
        r += 1;
    }
    assert(roots@.take(r as int) =~= roots@);
    (used, weak)
}

/// The first dylib from `d` on that ranks better than `best` and exports the
/// name.
pub open spec fn exporter(dylibs: Seq<DylibFile>, name: Seq<u8>, best: u64, d: int) -> Option<int>
    decreases dylibs.len() - d,
{
    if d < 0 || d >= dylibs.len() {
        None
    } else if 0x2_0000_0000 + dylibs[d].priority < best && bytes::views(
        dylibs[d].exports@,
    ).contains(name) {
        Some(d)
    } else {
        exporter(dylibs, name, best, d + 1)
    }
}

/// A dylib that exports a name is one of the list.
pub proof fn lemma_exporter_range(dylibs: Seq<DylibFile>, name: Seq<u8>, best: u64, d: int)
    requires
        0 <= d,
    ensures
        exporter(dylibs, name, best, d) matches Some(i) ==> d <= i < dylibs.len(),
    decreases dylibs.len() - d,
{
    if d < dylibs.len() {
        lemma_exporter_range(dylibs, name, best, d + 1);
    }
}

/// A symbol imported from a dylib.
pub open spec fn imported(s: Symbol, d: int) -> Symbol {
    let t = s.with_origin(Origin::Dylib(d as u32)).with_isec(None);
    Symbol {
        flags: SymFlags { is_imported: true, is_extern: true, is_common: false, ..t.flags },
        ..t
    }
}

/// The symbol after the dylibs' exports had their turn: they claim symbols
/// that are used and unresolved, lazily claimed or common. An earlier dylib
/// beats a later archive member and vice versa.
pub open spec fn after_dylibs(dylibs: Seq<DylibFile>, s: Symbol, used: bool, best: u64) -> Symbol {
    if !used || best / 0x1_0000_0000 < 2 {
        s
    } else {
        match exporter(dylibs, s.name@, best, 0) {
            Some(d) => imported(s, d),
            None => s,
        }
    }
}

fn import(s: &mut Symbol, d: usize)
    ensures
        *final(s) == imported(*old(s), d as int),
{
    s.set_origin(Origin::Dylib(d as u32));
    s.set_isec(None);
    s.flags = SymFlags { is_imported: true, is_extern: true, is_common: false, ..s.flags };
}

/// Finds the first dylib from the `first` on that exports a name and whose
/// claim beats a rank.
pub fn find_exporter(dylibs: &Vec<DylibFile>, name: &[u8], best: u64, first: usize) -> (r: Option<
    usize,
>)
    ensures
        match r {
            Some(d) => exporter(dylibs@, name@, best, first as int) == Some(d as int) && d
                < dylibs.len(),
            None => exporter(dylibs@, name@, best, first as int) is None,
        },
{
    let mut d: usize = first;
    while d < dylibs.len()
        invariant
            exporter(dylibs@, name@, best, first as int) == exporter(
                dylibs@,
                name@,
                best,
                d as int,
            ),
        decreases dylibs.len() - d,
    {
        let rank: u64 = 0x2_0000_0000 + dylibs[d].priority as u64;
        if rank < best && crate::util::text::holds(
            &dylibs[d].exports,
            name,
        ) {
            return Some(d);
        }
        d += 1;
    }
    None
}

/// A symbol at the end of a round.
pub open spec fn settled(
    dylibs: Seq<DylibFile>,
    relocatable: bool,
    s: Symbol,
    best: u64,
    used: bool,
    weakly: bool,
) -> Symbol {
    let w = if weakly {
        Symbol { flags: SymFlags { is_weak_ref: true, ..s.flags }, ..s }
    } else {
        s
    };
    let d = if relocatable {
        w
    } else {
        after_dylibs(dylibs, w, used, best)
    };
    Symbol { flags: SymFlags { is_used: used, ..d.flags }, ..d }
}

/// Ends a round for one symbol.
fn settle(
    dylibs: &Vec<DylibFile>,
    relocatable: bool,
    s: &mut Symbol,
    best: u64,
    used: bool,
    weakly: bool,
)
    ensures
        *final(s) == settled(dylibs@, relocatable, *old(s), best, used, weakly),
{
    if weakly {
        s.flags = SymFlags { is_weak_ref: true, ..s.flags };
    }
    if !relocatable && used && best / 0x1_0000_0000 >= 2 {
        match find_exporter(dylibs, s.name.as_slice(), best, 0) {
            Some(d) => import(s, d),
            None => {},
        }
    }
    s.flags = SymFlags { is_used: used, ..s.flags };
}

/// What a round of resolution settles: the symbols and the duplicate
/// definitions.
pub open spec fn resolved(
    objs: Seq<ObjectFile>,
    isecs: Seq<InputSection>,
    dylibs: Seq<DylibFile>,
    roots: Seq<u32>,
    only_alive: bool,
    relocatable: bool,
    syms: Seq<Symbol>,
) -> (Seq<Symbol>, Seq<(u32, usize)>) {
    let entries = entries_to(objs, only_alive, objs.len() as int);
    let n = entries.len() as int;
    let best = Seq::new(syms.len(), |i: int| best_rank(entries, i, n));
    let c = claims_to(
        objs,
        isecs,
        only_alive,
        entries,
        Claims { syms, best, dups: Seq::empty() },
        n,
    );
    let merged = commons_to(entries, c.best, c.syms, n);
    (
        Seq::new(
            syms.len(),
            |i: int|
                settled(
                    dylibs,
                    relocatable,
                    merged[i],
                    c.best[i],
                    is_used(entries, roots, i),
                    referenced(entries, i, true, n),
                ),
        ),
        c.dups,
    )
}

/// Runs one round of resolution. Returns the duplicate strong definitions:
/// the symbol, and the object whose definition lost.
pub fn do_resolve(
    objs: &Vec<ObjectFile>,
    isecs: &Vec<InputSection>,
    dylibs: &Vec<DylibFile>,
    roots: &Vec<u32>,
    only_alive: bool,
    relocatable: bool,
    syms: &mut Vec<Symbol>,
) -> (dups: Vec<(u32, usize)>)
    requires
        objs_ok(objs@, isecs@, old(syms).len() as int),
        old(syms).len() <= u32::MAX,
        forall|k: int| 0 <= k < roots.len() ==> (#[trigger] roots[k]) < old(syms).len(),
    ensures
        (final(syms)@, dups@) == resolved(
            objs@,
            isecs@,
            dylibs@,
            roots@,
            only_alive,
            relocatable,
            old(syms)@,
        ),
        final(syms).len() == old(syms).len(),
{
    let n: usize = syms.len();
    let ghost start = syms@;
    let entries: Vec<Entry> = list_entries(objs, only_alive, Ghost(n as int), Ghost(isecs@));
    assert forall|k: int| 0 <= k < entries.len() implies (#[trigger] entries[k]).sym < n by {
        assert(entries@[k].sym < n);
    }
    let (used, weak) = find_used(&entries, roots, n);
    let mut best: Vec<u64> = find_best(&entries, n);
    let ghost ev = entries@;
    assert(best@ =~= Seq::new(start.len(), |i: int| best_rank(ev, i, ev.len() as int)));
    let dups: Vec<(u32, usize)> = claim_all(objs, isecs, only_alive, &entries, syms, &mut best);
    merge_commons(&entries, &best, syms);
    let ghost merged = syms@;
    let mut i: usize = 0;
    while i < n
        invariant
            i <= n,
            syms.len() == n,
            merged.len() == n,
            used.len() == n,
            weak.len() == n,
            best.len() == n,
            forall|k: int|
                0 <= k < i ==> #[trigger] syms[k] == settled(
                    dylibs@,
                    relocatable,
                    merged[k],
                    best[k],
                    used[k],
                    weak[k],
                ),
            forall|k: int| i <= k < n ==> #[trigger] syms[k] == merged[k],
        decreases n - i,
    {
        settle(dylibs, relocatable, &mut syms[i], best[i], used[i], weak[i]);
        i += 1;
    }
    proof {
        assert(syms@ =~= resolved(
            objs@,
            isecs@,
            dylibs@,
            roots@,
            only_alive,
            relocatable,
            start,
        ).0);
    }
    dups
}

/// A symbol without the claims of files.
pub open spec fn unclaimed(s: Symbol) -> Symbol {
    let o = s.defined_by();
    if o is Obj || o is Dylib || s.flags.is_common {
        let t = s.with_origin(Origin::Undef).with_isec(None);
        Symbol {
            value: 0,
            common_p2align: 0,
            flags: SymFlags {
                is_weak_def: false,
                is_private_extern: false,
                is_imported: false,
                is_common: false,
                no_dead_strip: false,
                ..t.flags
            },
            ..t
        }
    } else {
        s
    }
}

fn unclaim(s: &mut Symbol)
    ensures
        *final(s) == unclaimed(*old(s)),
{
    let from_file: bool = match s.origin() {
        Origin::Obj(_o) => true,
        Origin::Dylib(_d) => true,
        _ => s.flags.is_common,
    };
    if from_file {
        s.set_origin(Origin::Undef);
        s.set_isec(None);
        s.value = 0;
        s.common_p2align = 0;
        s.flags = SymFlags {
            is_weak_def: false,
            is_private_extern: false,
            is_imported: false,
            is_common: false,
            no_dead_strip: false,
            ..s.flags
        };
    }
}

/// The symbols without the claims of files.
pub open spec fn all_unclaimed(syms: Seq<Symbol>) -> Seq<Symbol> {
    syms.map_values(|s: Symbol| unclaimed(s))
}

/// Takes all claims of files back.
pub fn clear_claims(syms: &mut Vec<Symbol>)
    ensures
        final(syms)@ == all_unclaimed(old(syms)@),
{
    let ghost start = syms@;
    let mut i: usize = 0;
    while i < syms.len()
        invariant
            i <= syms.len(),
            syms.len() == start.len(),
            forall|k: int| 0 <= k < i ==> #[trigger] syms[k] == unclaimed(start[k]),
            forall|k: int| i <= k < syms.len() ==> #[trigger] syms[k] == start[k],
        decreases syms.len() - i,
    {
        unclaim(&mut syms[i]);
        i += 1;
    }
    assert(syms@ =~= all_unclaimed(start));
}

/// A local symbol with its definition.
pub open spec fn local_symbol(s: Symbol, obj: int, n: NList, place: Option<(usize, u64)>) -> Symbol {
    if n.kind() == N_ABS {
        Symbol {
            value: n.n_value,
            ..s.with_origin(Origin::Obj(obj as u32)).with_isec(None)
        }
    } else if n.kind() == N_SECT {
        match place {
            Some((isec, off)) => {
                let t = s.with_origin(Origin::Obj(obj as u32)).with_isec(Some(isec as u32));
                Symbol {
                    value: off,
                    flags: SymFlags {
                        no_dead_strip: n.n_desc & (N_NO_DEAD_STRIP | REFERENCED_DYNAMICALLY) != 0,
                        ..t.flags
                    },
                    ..t
                }
            },
            None => s,
        }
    } else {
        s
    }
}

fn define_local(s: &mut Symbol, obj: usize, n: &NList, place: Option<(usize, u64)>)
    ensures
        *final(s) == local_symbol(*old(s), obj as int, *n, place),
{
    if n.n_type() == N_ABS {
        s.set_origin(Origin::Obj(obj as u32));
        s.set_isec(None);
        s.value = n.n_value;
    } else if n.n_type() == N_SECT {
        match place {
            Some((isec, off)) => {
                s.set_origin(Origin::Obj(obj as u32));
                s.set_isec(Some(isec as u32));
                s.value = off;
                s.flags = SymFlags {
                    no_dead_strip: n.n_desc & (N_NO_DEAD_STRIP | REFERENCED_DYNAMICALLY) != 0,
                    ..s.flags
                };
            },
            None => {},
        }
    }
}

/// The symbols with the local definitions of the first `k` entries of
/// object `o`.
pub open spec fn obj_locals(
    objs: Seq<ObjectFile>,
    isecs: Seq<InputSection>,
    o: int,
    syms: Seq<Symbol>,
    k: int,
) -> Seq<Symbol>
    decreases k,
{
    if k <= 0 {
        syms
    } else {
        let before = obj_locals(objs, isecs, o, syms, k - 1);
        let n = objs[o].nlists[k - 1];
        let id = objs[o].syms[k - 1] as int;
        if n.stab() || n.external() {
            before
        } else {
            before.update(
                id,
                local_symbol(
                    before[id],
                    o,
                    n,
                    crate::input_files::subsec_at(isecs, objs[o].subsecs@, n.n_value),
                ),
            )
        }
    }
}

/// The symbols with the local definitions of the first `n` objects.
pub open spec fn locals_to(
    objs: Seq<ObjectFile>,
    isecs: Seq<InputSection>,
    syms: Seq<Symbol>,
    n: int,
) -> Seq<Symbol>
    decreases n,
{
    if n <= 0 {
        syms
    } else {
        obj_locals(
            objs,
            isecs,
            n - 1,
            locals_to(objs, isecs, syms, n - 1),
            objs[n - 1].nlists.len() as int,
        )
    }
}

/// Gives each non-external symbol its definition: they are private to their
/// object and never compete.
pub fn claim_locals(objs: &Vec<ObjectFile>, isecs: &Vec<InputSection>, syms: &mut Vec<Symbol>)
    requires
        objs_ok(objs@, isecs@, old(syms).len() as int),
    ensures
        final(syms)@ == locals_to(objs@, isecs@, old(syms)@, objs.len() as int),
        final(syms).len() == old(syms).len(),
{
    let ghost start = syms@;
    let mut o: usize = 0;
    while o < objs.len()
        invariant
            o <= objs.len(),
            syms.len() == start.len(),
            objs_ok(objs@, isecs@, start.len() as int),
            syms@ == locals_to(objs@, isecs@, start, o as int),
        decreases objs.len() - o,
    {
        let ghost base = syms@;
        let mut k: usize = 0;
        assert(objs@[o as int].nlists.len() == objs@[o as int].syms.len());
        while k < objs[o].nlists.len()
            invariant
                o < objs.len(),
                k <= objs[o as int].nlists.len(),
                objs@[o as int].nlists.len() == objs@[o as int].syms.len(),
                syms.len() == start.len(),
                objs_ok(objs@, isecs@, start.len() as int),
                syms@ == obj_locals(objs@, isecs@, o as int, base, k as int),
            decreases objs[o as int].nlists.len() - k,
        {
            let n: NList = objs[o].nlists[k];
            if !n.is_stab() && !n.is_extern() {
                assert(objs@[o as int].syms[k as int] < start.len());
                let id: usize = objs[o].syms[k] as usize;
                let place: Option<(usize, u64)> = find_subsec(
                    isecs.as_slice(),
                    objs[o].subsecs.as_slice(),
                    n.n_value,
                );
                let ghost before = syms@;
                define_local(&mut syms[id], o, &n, place);
                assert(syms@ =~= before.update(
                    id as int,
                    local_symbol(before[id as int], o as int, n, place),
                ));
            }
            k += 1;
        }
        o += 1;
    }
}

/// The object that defines a symbol.
pub open spec fn owner_of(s: Symbol, nobjs: int) -> Option<int> {
    match s.defined_by() {
        Origin::Obj(o) => if o < nobjs {
            Some(o as int)
        } else {
            None
        },
        _ => None,
    }
}

/// The objects that the first `k` entries of object `o` need.
pub open spec fn needs(objs: Seq<ObjectFile>, syms: Seq<Symbol>, o: int, k: int) -> Seq<usize>
    decreases k,
{
    if k <= 0 {
        Seq::empty()
    } else {
        let before = needs(objs, syms, o, k - 1);
        let n = objs[o].nlists[k - 1];
        if is_global(n) && n.kind() == N_UNDF {
            match owner_of(syms[objs[o].syms[k - 1] as int], objs.len() as int) {
                Some(t) => before.push(t as usize),
                None => before,
            }
        } else {
            before
        }
    }
}

/// For each object, the objects that it needs.
pub open spec fn need_lists(objs: Seq<ObjectFile>, syms: Seq<Symbol>) -> Seq<Seq<usize>> {
    Seq::new(objs.len(), |o: int| needs(objs, syms, o, objs[o].nlists.len() as int))
}

/// The objects among the first `n` that are alive from the start.
pub open spec fn alive_to(objs: Seq<ObjectFile>, n: int) -> Seq<usize>
    decreases n,
{
    if n <= 0 {
        Seq::empty()
    } else if objs[n - 1].is_alive {
        alive_to(objs, n - 1).push((n - 1) as usize)
    } else {
        alive_to(objs, n - 1)
    }
}

/// The objects that define the first `n` root symbols.
pub open spec fn root_owners(syms: Seq<Symbol>, roots: Seq<u32>, nobjs: int, n: int) -> Seq<usize>
    decreases n,
{
    if n <= 0 {
        Seq::empty()
    } else {
        match owner_of(syms[roots[n - 1] as int], nobjs) {
            Some(t) => root_owners(syms, roots, nobjs, n - 1).push(t as usize),
            None => root_owners(syms, roots, nobjs, n - 1),
        }
    }
}

/// The objects from which the liveness walk starts.
pub open spec fn live_roots(objs: Seq<ObjectFile>, syms: Seq<Symbol>, roots: Seq<u32>) -> Seq<usize> {
    alive_to(objs, objs.len() as int) + root_owners(
        syms,
        roots,
        objs.len() as int,
        roots.len() as int,
    )
}

/// The objects with the liveness that the walk finds: an object is alive if
/// it was, or if it defines a root symbol, or if it defines a symbol that a
/// live object needs.
pub open spec fn marked_live(objs: Seq<ObjectFile>, syms: Seq<Symbol>, roots: Seq<u32>) -> Seq<
    ObjectFile,
> {
    Seq::new(
        objs.len(),
        |o: int|
            ObjectFile {
                is_alive: graph::reachable(
                    need_lists(objs, syms),
                    live_roots(objs, syms, roots),
                    o,
                ),
                ..objs[o]
            },
    )
}

fn owner(s: &Symbol, nobjs: usize) -> (r: Option<usize>)
    ensures
        match r {
            Some(o) => owner_of(*s, nobjs as int) == Some(o as int) && o < nobjs,
            None => owner_of(*s, nobjs as int) is None,
        },
{
    match s.origin() {
        Origin::Obj(o) => if (o as usize) < nobjs {
            Some(o as usize)
        } else {
            None
        },
        _ => None,
    }
}

fn list_needs(objs: &Vec<ObjectFile>, syms: &Vec<Symbol>, o: usize) -> (r: Vec<usize>)
    requires
        o < objs.len(),
        objs[o as int].nlists.len() == objs[o as int].syms.len(),
        forall|k: int|
            0 <= k < objs[o as int].syms.len() ==> (#[trigger] objs[o as int].syms[k])
                < syms.len(),
    ensures
        r@ == needs(objs@, syms@, o as int, objs[o as int].nlists.len() as int),
        forall|k: int| 0 <= k < r.len() ==> (#[trigger] r[k]) < objs.len(),
{
    let mut out: Vec<usize> = Vec::new();
    let mut k: usize = 0;
    while k < objs[o].nlists.len()
        invariant
            o < objs.len(),
            k <= objs[o as int].nlists.len(),
            objs[o as int].nlists.len() == objs[o as int].syms.len(),
            forall|k: int|
                0 <= k < objs[o as int].syms.len() ==> (#[trigger] objs[o as int].syms[k])
                    < syms.len(),
            out@ == needs(objs@, syms@, o as int, k as int),
            forall|j: int| 0 <= j < out.len() ==> (#[trigger] out[j]) < objs.len(),
        decreases objs[o as int].nlists.len() - k,
    {
        let n: NList = objs[o].nlists[k];
        if !n.is_stab() && n.is_extern() && n.n_type() == N_UNDF {
            match owner(&syms[objs[o].syms[k] as usize], objs.len()) {
                Some(t) => out.push(t),
                None => {},
            }
        }
        k += 1;
    }
    out
}

/// Marks archive members whose definitions live code references. Returns,
/// for each object, from which object it was found (`graph::ROOT` if it was
/// alive or defines a root symbol).
pub fn mark_live_objects(objs: &mut Vec<ObjectFile>, syms: &Vec<Symbol>, roots: &Vec<u32>) -> (w:
    graph::Walk)
    requires
        old(objs).len() < usize::MAX,
        forall|o: int|
            0 <= o < old(objs).len() ==> (#[trigger] old(objs)[o]).nlists.len()
                == old(objs)[o].syms.len(),
        forall|o: int, k: int|
            0 <= o < old(objs).len() && 0 <= k < old(objs)[o].syms.len() ==> (
            #[trigger] old(objs)[o].syms[k]) < syms.len(),
        forall|k: int| 0 <= k < roots.len() ==> (#[trigger] roots[k]) < syms.len(),
    ensures
        final(objs)@ == marked_live(old(objs)@, syms@, roots@),
        graph::walk_ok(
            need_lists(old(objs)@, syms@),
            live_roots(old(objs)@, syms@, roots@),
            w,
            old(objs).len() as int,
        ),
{
    let ghost start = objs@;
    let n: usize = objs.len();
    let mut edges: Vec<Vec<usize>> = Vec::new();
    let mut starts: Vec<usize> = Vec::new();
    while edges.len() < n
        invariant
            edges.len() <= n,
            n == objs.len(),
            objs@ == start,
            forall|o: int|
                0 <= o < start.len() ==> (#[trigger] start[o]).nlists.len()
                    == start[o].syms.len(),
            forall|o: int, k: int|
                0 <= o < start.len() && 0 <= k < start[o].syms.len() ==> (
                #[trigger] start[o].syms[k]) < syms.len(),
            forall|o: int|
                0 <= o < edges.len() ==> (#[trigger] edges[o])@ == needs(
                    start,
                    syms@,
                    o,
                    start[o].nlists.len() as int,
                ),
            forall|o: int, k: int|
                0 <= o < edges.len() && 0 <= k < edges[o].len() ==> (#[trigger] edges[o][k]) < n,
            starts@ == alive_to(start, edges.len() as int),
            forall|k: int| 0 <= k < starts.len() ==> (#[trigger] starts[k]) < n,
        decreases n - edges.len(),
    {
        let o: usize = edges.len();
        let list: Vec<usize> = list_needs(objs, syms, o);
        if objs[o].is_alive {
            starts.push(o);
        }
        edges.push(list);
    }
    let ghost alive = starts@;
    let mut r: usize = 0;
    assert(alive + Seq::<usize>::empty() =~= alive);
    while r < roots.len()
        invariant
            r <= roots.len(),
            n == objs.len(),
            objs@ == start,
            forall|k: int| 0 <= k < roots.len() ==> (#[trigger] roots[k]) < syms.len(),
            starts@ == alive + root_owners(syms@, roots@, n as int, r as int),
            forall|k: int| 0 <= k < starts.len() ==> (#[trigger] starts[k]) < n,
        decreases roots.len() - r,
    {
        match owner(&syms[roots[r] as usize], n) {
            Some(t) => {
                starts.push(t);
                assert(starts@ =~= alive + root_owners(
                    syms@,
                    roots@,
                    n as int,
                    r as int,
                ).push(t));
            },
            None => {},
        }
        r += 1;
    }
    let ghost ev = graph::lists(edges@);
    proof {
        assert(ev =~= need_lists(start, syms@));
        assert forall|i: int, k: int| 0 <= i < n && 0 <= k < ev[i].len() implies #[trigger] ev[i][k]
            < n by {
            assert(edges[i][k] < n);
        }
    }
    let w: graph::Walk = graph::walk(&edges, &starts);
    let mut o: usize = 0;
    while o < n
        invariant
            o <= n,
            n == objs.len(),
            n == start.len(),
            w.live.len() == n,
            forall|k: int|
                0 <= k < o ==> #[trigger] objs[k] == (ObjectFile {
                    is_alive: w.live[k],
                    ..start[k]
                }),
            forall|k: int| o <= k < n ==> #[trigger] objs[k] == start[k],
        decreases n - o,
    {
        objs[o].is_alive = w.live[o];
        o += 1;
    }
    assert(objs@ =~= marked_live(start, syms@, roots@));
    w
}

/// What a resolution settles: the symbols, the objects with their liveness,
/// and the duplicate definitions.
pub open spec fn fully_resolved(
    objs: Seq<ObjectFile>,
    isecs: Seq<InputSection>,
    dylibs: Seq<DylibFile>,
    roots: Seq<u32>,
    relocatable: bool,
    syms: Seq<Symbol>,
) -> (Seq<Symbol>, Seq<ObjectFile>, Seq<(u32, usize)>) {
    let first = resolved(
        objs,
        isecs,
        dylibs,
        roots,
        false,
        relocatable,
        all_unclaimed(syms),
    ).0;
    let live = marked_live(objs, first, roots);
    let second = resolved(
        live,
        isecs,
        dylibs,
        roots,
        true,
        relocatable,
        all_unclaimed(first),
    );
    (locals_to(live, isecs, second.0, live.len() as int), live, second.1)
}

/// True for the walk that found the live objects: it starts at those that
/// are live from the start or define a root symbol, and follows what objects
/// need after the first round.
pub open spec fn is_liveness_walk(
    objs: Seq<ObjectFile>,
    isecs: Seq<InputSection>,
    dylibs: Seq<DylibFile>,
    roots: Seq<u32>,
    relocatable: bool,
    syms: Seq<Symbol>,
    w: graph::Walk,
) -> bool {
    let first = resolved(
        objs,
        isecs,
        dylibs,
        roots,
        false,
        relocatable,
        all_unclaimed(syms),
    ).0;
    graph::walk_ok(
        need_lists(objs, first),
        live_roots(objs, first, roots),
        w,
        objs.len() as int,
    )
}

/// Resolves all symbols. Returns the duplicate strong definitions and the
/// liveness walk.
pub fn resolve_symbols(
    objs: &mut Vec<ObjectFile>,
    isecs: &Vec<InputSection>,
    dylibs: &Vec<DylibFile>,
    roots: &Vec<u32>,
    relocatable: bool,
    syms: &mut Vec<Symbol>,
) -> (r: (Vec<(u32, usize)>, graph::Walk))
    requires
        objs_ok(old(objs)@, isecs@, old(syms).len() as int),
        old(syms).len() <= u32::MAX,
        old(objs).len() < usize::MAX,
        forall|k: int| 0 <= k < roots.len() ==> (#[trigger] roots[k]) < old(syms).len(),
    ensures
        (final(syms)@, final(objs)@, r.0@) == fully_resolved(
            old(objs)@,
            isecs@,
            dylibs@,
            roots@,
            relocatable,
            old(syms)@,
        ),
        is_liveness_walk(
            old(objs)@,
            isecs@,
            dylibs@,
            roots@,
            relocatable,
            old(syms)@,
            r.1,
        ),
        final(syms).len() == old(syms).len(),
        objs_ok(final(objs)@, isecs@, final(syms).len() as int),
{
    let ghost start = objs@;
    clear_claims(syms);
    let _first: Vec<(u32, usize)> = do_resolve(
        objs,
        isecs,
        dylibs,
        roots,
        false,
        relocatable,
        syms,
    );
    proof {
        assert forall|o: int, k: int|
            0 <= o < start.len() && 0 <= k < start[o].syms.len() implies (
        #[trigger] start[o].syms[k]) < syms.len() by {
            assert(start[o].nlists.len() == start[o].syms.len());
        }
    }
    let w: graph::Walk = mark_live_objects(objs, syms, roots);
    proof {
        assert forall|o: int| 0 <= o < objs@.len() implies ({
            &&& (#[trigger] objs@[o]).nlists.len() == objs@[o].syms.len()
            &&& forall|k: int|
                0 <= k < objs@[o].syms.len() ==> (#[trigger] objs@[o].syms[k]) < syms.len()
            &&& crate::input_files::subsecs_exist(isecs@, objs@[o].subsecs@)
            &&& crate::input_files::in_address_order(
                crate::input_files::extents(isecs@, objs@[o].subsecs@),
            )
        }) by {
            assert(start[o].nlists.len() == start[o].syms.len());
        }
    }
    clear_claims(syms);
    let dups: Vec<(u32, usize)> = do_resolve(
        objs,
        isecs,
        dylibs,
        roots,
        true,
        relocatable,
        syms,
    );
    claim_locals(objs, isecs, syms);
    (dups, w)
}

/// The symbol after newly loaded dylibs claimed it, if it is used and still
/// unresolved.
pub open spec fn claimed_late(dylibs: Seq<DylibFile>, s: Symbol, first: int) -> Symbol {
    if !s.flags.is_used || s.has_definition() {
        s
    } else {
        match exporter(dylibs, s.name@, u64::MAX, first) {
            Some(d) => imported(s, d),
            None => s,
        }
    }
}

/// Lets newly auto-linked dylibs claim still-unresolved symbols. They carry
/// later priorities than every file already resolved, so they can steal
/// nothing.
pub fn claim_new_dylibs(dylibs: &Vec<DylibFile>, syms: &mut Vec<Symbol>, first: usize)
    ensures
        final(syms)@ == old(syms)@.map_values(|s: Symbol| claimed_late(dylibs@, s, first as int)),
{
    let ghost start = syms@;
    let ghost goal = start.map_values(|s: Symbol| claimed_late(dylibs@, s, first as int));
    let mut i: usize = 0;
    while i < syms.len()
        invariant
            i <= syms.len(),
            syms.len() == start.len(),
            forall|k: int|
                0 <= k < i ==> #[trigger] syms[k] == claimed_late(
                    dylibs@,
                    start[k],
                    first as int,
                ),
            forall|k: int| i <= k < syms.len() ==> #[trigger] syms[k] == start[k],
        decreases syms.len() - i,
    {
        if syms[i].flags.is_used && !syms[i].is_defined() {
            match find_exporter(dylibs, syms[i].name.as_slice(), u64::MAX, first) {
                Some(d) => import(&mut syms[i], d),
                None => {},
            }
        }
        i += 1;
    }
    assert(syms@ =~= goal);
}

/// An object that owns a symbol after the claims has a definition with the
/// winning rank.
proof fn lemma_owner_won(
    objs: Seq<ObjectFile>,
    isecs: Seq<InputSection>,
    only_alive: bool,
    entries: Seq<Entry>,
    start: Claims,
    n: int,
    id: int,
    o: u32,
)
    requires
        0 <= n <= entries.len(),
        0 <= id < start.syms.len(),
        start.best.len() == start.syms.len(),
        entries_ok(entries, objs.len() as int, start.syms.len() as int),
        objs.len() <= u32::MAX,
        start.syms[id].defined_by() != Origin::Obj(o),
    ensures
        ({
            let c = claims_to(objs, isecs, only_alive, entries, start, n);
            &&& c.syms.len() == start.syms.len()
            &&& c.best.len() == start.best.len()
            &&& c.best[id] == start.best[id] || c.best[id] == u64::MAX
            &&& c.syms[id].defined_by() == Origin::Obj(o) ==> exists|k: int|
                0 <= k < n && (#[trigger] entries[k]).sym == id && entries[k].obj == o && rank_of(
                    entries[k],
                ) == Some(start.best[id])
        }),
    decreases n,
{
    if n > 0 {
        lemma_owner_won(objs, isecs, only_alive, entries, start, n - 1, id, o);
        let before = claims_to(objs, isecs, only_alive, entries, start, n - 1);
        let c = claims_to(objs, isecs, only_alive, entries, start, n);
        let e = entries[n - 1];
        if c.syms[id].defined_by() == Origin::Obj(o) {
            if e.sym == id && rank_of(e) == Some(before.best[id]) {
                assert(rank_of(e)->0 < u64::MAX);
                assert(before.best[id] == start.best[id]);
                assert(entries[n - 1].obj == o);
            } else {
                assert(c.syms[id] == before.syms[id]);
                let k = choose|k: int|
                    0 <= k < n - 1 && (#[trigger] entries[k]).sym == id && entries[k].obj == o
                        && rank_of(entries[k]) == Some(start.best[id]);
                assert(entries[k].sym == id);
            }
        }
    }
}

/// Claims keep names, and leave the winning rank or none.
proof fn lemma_claims_keep(
    objs: Seq<ObjectFile>,
    isecs: Seq<InputSection>,
    only_alive: bool,
    entries: Seq<Entry>,
    start: Claims,
    n: int,
    id: int,
)
    requires
        0 <= n <= entries.len(),
        0 <= id < start.syms.len(),
        start.best.len() == start.syms.len(),
        entries_ok(entries, objs.len() as int, start.syms.len() as int),
    ensures
        ({
            let c = claims_to(objs, isecs, only_alive, entries, start, n);
            &&& c.syms.len() == start.syms.len()
            &&& c.best.len() == start.best.len()
            &&& c.best[id] == start.best[id] || c.best[id] == u64::MAX
            &&& c.syms[id].name == start.syms[id].name
        }),
    decreases n,
{
    if n > 0 {
        lemma_claims_keep(objs, isecs, only_alive, entries, start, n - 1, id);
        assert(entries[n - 1].sym < start.syms.len());
    }
}

/// If every definition ranks below `r`, so does the best one.
proof fn lemma_best_below(entries: Seq<Entry>, id: int, n: int, r: u64)
    requires
        0 <= n <= entries.len(),
        r < u64::MAX,
        forall|k: int|
            0 <= k < n && (#[trigger] entries[k]).sym == id && rank_of(entries[k]) is Some ==> r
                < rank_of(entries[k])->0,
    ensures
        r < best_rank(entries, id, n),
    decreases n,
{
    if n > 0 {
        lemma_best_below(entries, id, n - 1, r);
        assert(entries[n - 1].sym == id || entries[n - 1].sym != id);
    }
}

/// The first dylib that exports a name and ranks better claims it.
proof fn lemma_first_exporter(dylibs: Seq<DylibFile>, name: Seq<u8>, best: u64, from: int, d: int)
    requires
        0 <= from <= d < dylibs.len(),
        0x2_0000_0000 + dylibs[d].priority < best,
        bytes::views(dylibs[d].exports@).contains(name),
        forall|e: int|
            from <= e < d ==> !bytes::views((#[trigger] dylibs[e]).exports@).contains(name),
    ensures
        exporter(dylibs, name, best, from) == Some(d),
    decreases d - from,
{
    if from < d {
        assert(!bytes::views(dylibs[from].exports@).contains(name));
        lemma_first_exporter(dylibs, name, best, from + 1, d);
    }
}

/// A dylib's export beats every definition that ranks below it, a common one
/// among them: a symbol that is used and has no better definition is
/// imported from the first dylib that exports it, and is not common.
pub proof fn lemma_dylib_beats_lower(
    objs: Seq<ObjectFile>,
    isecs: Seq<InputSection>,
    dylibs: Seq<DylibFile>,
    roots: Seq<u32>,
    only_alive: bool,
    syms: Seq<Symbol>,
    id: int,
    d: int,
)
    requires
        objs_ok(objs, isecs, syms.len() as int),
        0 <= id < syms.len(),
        0 <= d < dylibs.len() <= u32::MAX,
        bytes::views(dylibs[d].exports@).contains(syms[id].name@),
        forall|e: int|
            0 <= e < d ==> !bytes::views((#[trigger] dylibs[e]).exports@).contains(syms[id].name@),
        is_used(entries_to(objs, only_alive, objs.len() as int), roots, id),
        ({
            let entries = entries_to(objs, only_alive, objs.len() as int);
            forall|k: int|
                0 <= k < entries.len() && (#[trigger] entries[k]).sym == id && rank_of(entries[k])
                    is Some ==> 0x2_0000_0000 + dylibs[d].priority < rank_of(entries[k])->0
        }),
    ensures
        ({
            let s = resolved(objs, isecs, dylibs, roots, only_alive, false, syms).0[id];
            &&& s.defined_by() == Origin::Dylib(d as u32)
            &&& s.isec == u32::MAX
            &&& s.flags.is_imported
            &&& s.flags.is_extern
            &&& !s.flags.is_common
        }),
{
    let entries = entries_to(objs, only_alive, objs.len() as int);
    let n = entries.len() as int;
    lemma_entries_ok(objs, isecs, only_alive, objs.len() as int, syms.len() as int);
    let best = Seq::new(syms.len(), |i: int| best_rank(entries, i, n));
    let start = Claims { syms, best, dups: Seq::empty() };
    let c = claims_to(objs, isecs, only_alive, entries, start, n);
    let r = (0x2_0000_0000 + dylibs[d].priority) as u64;
    lemma_best_below(entries, id, n, r);
    lemma_claims_keep(objs, isecs, only_alive, entries, start, n, id);
    lemma_commons_keep(entries, c.best, c.syms, n, id);
    assert(c.best[id] > r);
    lemma_first_exporter(dylibs, syms[id].name@, c.best[id], 0, d);
}

/// Merging common symbols changes no owner and no name.
proof fn lemma_commons_keep(
    entries: Seq<Entry>,
    best: Seq<u64>,
    syms: Seq<Symbol>,
    n: int,
    id: int,
)
    requires
        n <= entries.len(),
        0 <= id < syms.len(),
        forall|k: int| 0 <= k < entries.len() ==> (#[trigger] entries[k]).sym < syms.len(),
    ensures
        commons_to(entries, best, syms, n).len() == syms.len(),
        commons_to(entries, best, syms, n)[id].defined_by() == syms[id].defined_by(),
        commons_to(entries, best, syms, n)[id].name == syms[id].name,
    decreases n,
{
    if n > 0 {
        lemma_commons_keep(entries, best, syms, n - 1, id);
        let e = entries[n - 1];
        lemma_commons_keep(entries, best, syms, n - 1, e.sym as int);
    }
}

/// The object that owns a symbol after a round of resolution has the best
/// definition of it: one whose rank is not above that of any other.
pub proof fn lemma_winner_is_best(
    objs: Seq<ObjectFile>,
    isecs: Seq<InputSection>,
    dylibs: Seq<DylibFile>,
    roots: Seq<u32>,
    only_alive: bool,
    relocatable: bool,
    syms: Seq<Symbol>,
    id: int,
    o: u32,
)
    requires
        objs_ok(objs, isecs, syms.len() as int),
        0 <= id < syms.len(),
        syms[id].defined_by() != Origin::Obj(o),
        resolved(objs, isecs, dylibs, roots, only_alive, relocatable, syms).0[id].defined_by()
            == Origin::Obj(o),
    ensures
        ({
            let entries = entries_to(objs, only_alive, objs.len() as int);
            exists|k: int|
                0 <= k < entries.len() && (#[trigger] entries[k]).sym == id && entries[k].obj == o
                    && rank_of(entries[k]) is Some && forall|j: int|
                    0 <= j < entries.len() && (#[trigger] entries[j]).sym == id && rank_of(
                        entries[j],
                    ) is Some ==> rank_of(entries[k])->0 <= rank_of(entries[j])->0
        }),
{
    let entries = entries_to(objs, only_alive, objs.len() as int);
    let n = entries.len() as int;
    lemma_entries_ok(objs, isecs, only_alive, objs.len() as int, syms.len() as int);
    let best = Seq::new(syms.len(), |i: int| best_rank(entries, i, n));
    let start = Claims { syms, best, dups: Seq::empty() };
    let c = claims_to(objs, isecs, only_alive, entries, start, n);
    lemma_owner_won(objs, isecs, only_alive, entries, start, n, id, o);
    lemma_commons_keep(entries, c.best, c.syms, n, id);
    assert(c.syms[id].defined_by() == Origin::Obj(o));
    let k = choose|k: int|
        0 <= k < n && (#[trigger] entries[k]).sym == id && entries[k].obj == o && rank_of(
            entries[k],
        ) == Some(best[id]);
    assert forall|j: int|
        0 <= j < n && (#[trigger] entries[j]).sym == id && rank_of(entries[j])
            is Some implies rank_of(entries[k])->0 <= rank_of(entries[j])->0 by {
        lemma_best_rank(entries, id, n, j);
    }
    assert(entries[k].sym == id);
}

pub proof fn lemma_entries_ok(
    objs: Seq<ObjectFile>,
    isecs: Seq<InputSection>,
    only_alive: bool,
    n: int,
    nsyms: int,
)
    requires
        objs_ok(objs, isecs, nsyms),
        0 <= n <= objs.len(),
    ensures
        entries_ok(entries_to(objs, only_alive, n), objs.len() as int, nsyms),
    decreases n,
{
    if n > 0 {
        lemma_entries_ok(objs, isecs, only_alive, n - 1, nsyms);
        assert(objs[n - 1].nlists.len() == objs[n - 1].syms.len());
        lemma_obj_entries_ok(objs, n - 1, objs[n - 1].nlists.len() as int, nsyms);
        let a = entries_to(objs, only_alive, n - 1);
        let b = obj_entries(objs, n - 1, objs[n - 1].nlists.len() as int);
        let all = entries_to(objs, only_alive, n);
        assert forall|k: int| 0 <= k < all.len() implies (#[trigger] all[k]).sym < nsyms
            && all[k].obj < objs.len() by {
            if k < a.len() {
                assert(all[k] == a[k]);
            } else {
                assert(all[k] == b[k - a.len()]);
            }
        }
    }
}

proof fn lemma_obj_entries_ok(objs: Seq<ObjectFile>, o: int, k: int, nsyms: int)
    requires
        0 <= o < objs.len(),
        objs.len() < u32::MAX,
        0 <= k <= objs[o].nlists.len(),
        objs[o].nlists.len() == objs[o].syms.len(),
        forall|j: int| 0 <= j < objs[o].syms.len() ==> (#[trigger] objs[o].syms[j]) < nsyms,
    ensures
        entries_ok(obj_entries(objs, o, k), objs.len() as int, nsyms),
    decreases k,
{
    if k > 0 {
        lemma_obj_entries_ok(objs, o, k - 1, nsyms);
        let a = obj_entries(objs, o, k - 1);
        let b = obj_entries(objs, o, k);
        assert(objs[o].syms[k - 1] < nsyms);
        assert forall|j: int| 0 <= j < b.len() implies (#[trigger] b[j]).sym < nsyms && b[j].obj
            < objs.len() by {
            if j < a.len() {
                assert(b[j] == a[j]);
            }
        }
    }
}

/// After a resolution an object is alive exactly if it was alive, or if it
/// defines a symbol that the command line names or that a live object needs.
pub proof fn lemma_liveness_closed(
    objs: Seq<ObjectFile>,
    syms: Seq<Symbol>,
    roots: Seq<u32>,
    a: int,
    b: int,
)
    requires
        0 <= a < objs.len(),
        0 <= b < objs.len(),
        marked_live(objs, syms, roots)[a].is_alive,
        graph::has_edge(need_lists(objs, syms), a, b),
    ensures
        marked_live(objs, syms, roots)[b].is_alive,
{
    graph::lemma_edge_reachable(
        need_lists(objs, syms),
        live_roots(objs, syms, roots),
        a,
        b,
    );
}

} // verus!
