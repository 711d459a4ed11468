//! Who wins a symbol. The laws speak of the objects' symbol table entries:
//! of the bits of `n_type` and `n_desc`, of liveness and of input order.
use super::resolve::{
    best_rank, claimed_symbol, claims_to, commons_to, entries_ok, entries_to, entry_of,
    exporter, is_common_claim, is_used, lemma_best_rank, lemma_dylib_beats_lower, lemma_entries_ok,
    live_roots, marked_live, need_lists, needs, obj_entries, objs_ok, place_of,
    rank_of, referenced, resolved, root_owners, alive_to, Claims, Entry,
};
use crate::input_files::{subsec_at, DylibFile, ObjectFile};
use crate::input_sections::InputSection;
use crate::macho::NList;
use crate::symbol::{Origin, Symbol};
use crate::util::bytes;
use crate::util::graph;
use vstd::prelude::*;

verus! {

/// True for an entry that other files see: external and no debugging entry.
pub open spec fn is_visible(n: NList) -> bool {
    n.n_type & 0xe0 == 0 && n.n_type & 0x01 != 0
}

/// True for a definition, in a section or with an absolute value.
pub open spec fn is_definition(n: NList) -> bool {
    n.n_type & 0x0e == 0x0e || n.n_type & 0x0e == 0x02
}

/// True for a definition that other definitions do not replace.
pub open spec fn is_strong(n: NList) -> bool {
    n.n_desc & 0x80 == 0
}

/// True for a tentative definition: an undefined entry with a size.
pub open spec fn is_tentative(n: NList) -> bool {
    n.n_type & 0x0e == 0 && n.n_type & 0x01 != 0 && n.n_value != 0
}

/// True for an entry about symbol `id` that takes part in a round.
pub open spec fn takes_part(
    objs: Seq<ObjectFile>,
    only_alive: bool,
    id: int,
    o: int,
    k: int,
) -> bool {
    &&& 0 <= o < objs.len()
    &&& 0 <= k < objs[o].nlists.len()
    &&& is_visible(objs[o].nlists[k])
    &&& objs[o].syms[k] == id
    &&& only_alive ==> objs[o].is_alive
}

/// True for a definition of symbol `id` that takes part in a round.
pub open spec fn defines(
    objs: Seq<ObjectFile>,
    only_alive: bool,
    id: int,
    o: int,
    k: int,
) -> bool {
    takes_part(objs, only_alive, id, o, k) && is_definition(objs[o].nlists[k])
}

/// True for a definition that a live file makes and that others do not
/// replace.
pub open spec fn defines_strongly(
    objs: Seq<ObjectFile>,
    only_alive: bool,
    id: int,
    o: int,
    k: int,
) -> bool {
    defines(objs, only_alive, id, o, k) && objs[o].is_alive && is_strong(objs[o].nlists[k])
}

/// True when no rule prefers definition (p, j) to definition (o, k): a live
/// file's beats an archive member's that is not loaded, among live files a
/// strong one beats a weak one, and the earlier file wins among equals.
pub open spec fn holds_against(
    objs: Seq<ObjectFile>,
    o: int,
    k: int,
    p: int,
    j: int,
) -> bool {
    let earlier = objs[o].priority <= objs[p].priority;
    if objs[p].is_alive {
        &&& objs[o].is_alive
        &&& if is_strong(objs[p].nlists[j]) {
            is_strong(objs[o].nlists[k]) && earlier
        } else {
            is_strong(objs[o].nlists[k]) || earlier
        }
    } else {
        objs[o].is_alive || earlier
    }
}

/// True for a definition whose place is kept: an absolute one, or one in a
/// subsection that was kept.
pub open spec fn is_placed(
    objs: Seq<ObjectFile>,
    isecs: Seq<InputSection>,
    o: int,
    k: int,
) -> bool {
    let n = objs[o].nlists[k];
    n.n_type & 0x0e == 0x02 || subsec_at(isecs, objs[o].subsecs@, n.n_value) is Some
}

/// True for a symbol that is defined as the entry says.
pub open spec fn is_defined_as(
    objs: Seq<ObjectFile>,
    isecs: Seq<InputSection>,
    o: int,
    k: int,
    s: Symbol,
) -> bool {
    let n = objs[o].nlists[k];
    &&& s.defined_by() == Origin::Obj(o as u32)
    &&& s.flags.is_extern
    &&& !s.flags.is_imported
    &&& !s.flags.is_common
    &&& s.flags.is_weak_def == (n.n_desc & 0x80 != 0)
    &&& s.flags.is_private_extern == (n.n_type & 0x10 != 0 || objs[o].hidden)
    &&& s.flags.no_dead_strip == (n.n_desc & 0x30 != 0)
    &&& n.n_type & 0x0e == 0x02 ==> s.isec == u32::MAX && s.value == n.n_value
    &&& n.n_type & 0x0e == 0x0e ==> (subsec_at(isecs, objs[o].subsecs@, n.n_value) matches Some((
        i,
        off,
    )) && s.isec == i && s.value == off)
}

/// Of two live definitions, the strong one ranks before the weak one,
/// whatever the files' order. A live definition ranks before one of an
/// archive member that is not loaded, and input order decides among equals.
/// Every definition ranks before a tentative one, and what defines nothing
/// has no rank.
pub proof fn lemma_rank_order(a: Entry, b: Entry)
    requires
        is_definition(a.nlist),
    ensures
        rank_of(a) is Some,
        is_definition(b.nlist) ==> rank_of(b) is Some,
        is_definition(b.nlist) && a.alive && b.alive && is_strong(a.nlist) && !is_strong(b.nlist)
            ==> rank_of(a)->0 < rank_of(b)->0,
        is_definition(b.nlist) && a.alive && !b.alive ==> rank_of(a)->0 < rank_of(b)->0,
        is_definition(b.nlist) && a.alive && b.alive && is_strong(a.nlist) == is_strong(b.nlist)
            ==> (rank_of(a)->0 < rank_of(b)->0 <==> a.priority < b.priority),
        is_definition(b.nlist) && !a.alive && !b.alive ==> (rank_of(a)->0 < rank_of(b)->0
            <==> a.priority < b.priority),
        is_tentative(b.nlist) && b.alive ==> rank_of(b) is Some && rank_of(a)->0 < rank_of(b)->0,
        is_tentative(b.nlist) && !b.alive ==> rank_of(b) is None,
        !is_tentative(b.nlist) && !is_definition(b.nlist) ==> rank_of(b) is None,
{
}

proof fn lemma_holds(objs: Seq<ObjectFile>, o: int, k: int, p: int, j: int)
    requires
        is_definition(objs[o].nlists[k]),
        is_definition(objs[p].nlists[j]),
        rank_of(entry_of(objs, o, k))->0 <= rank_of(entry_of(objs, p, j))->0,
    ensures
        holds_against(objs, o, k, p, j),
{
}

proof fn lemma_in_obj(objs: Seq<ObjectFile>, o: int, n: int, k: int)
    requires
        0 <= k < n <= objs[o].nlists.len(),
        is_visible(objs[o].nlists[k]),
    ensures
        obj_entries(objs, o, n).contains(entry_of(objs, o, k)),
    decreases n,
{
    let before = obj_entries(objs, o, n - 1);
    let e = entry_of(objs, o, k);
    if k < n - 1 {
        lemma_in_obj(objs, o, n - 1, k);
        let i = before.index_of(e);
        assert(obj_entries(objs, o, n)[i] == e);
    } else {
        assert(obj_entries(objs, o, n)[before.len() as int] == e);
    }
}

/// Every visible entry is listed.
proof fn lemma_listed(objs: Seq<ObjectFile>, only_alive: bool, n: int, o: int, k: int)
    requires
        0 <= o < n <= objs.len(),
        0 <= k < objs[o].nlists.len(),
        is_visible(objs[o].nlists[k]),
        only_alive ==> objs[o].is_alive,
    ensures
        entries_to(objs, only_alive, n).contains(entry_of(objs, o, k)),
    decreases n,
{
    let e = entry_of(objs, o, k);
    let all = entries_to(objs, only_alive, n);
    let before = entries_to(objs, only_alive, n - 1);
    if o < n - 1 {
        lemma_listed(objs, only_alive, n - 1, o, k);
        let i = before.index_of(e);
        assert(all[i] == e);
    } else {
        let own = obj_entries(objs, o, objs[o].nlists.len() as int);
        lemma_in_obj(objs, o, objs[o].nlists.len() as int, k);
        let i = own.index_of(e);
        assert(all[before.len() + i] == e);
    }
}

proof fn lemma_from_obj(objs: Seq<ObjectFile>, o: int, n: int, i: int) -> (k: int)
    requires
        0 <= n <= objs[o].nlists.len(),
        0 <= i < obj_entries(objs, o, n).len(),
    ensures
        0 <= k < n,
        is_visible(objs[o].nlists[k]),
        obj_entries(objs, o, n)[i] == entry_of(objs, o, k),
    decreases n,
{
    let before = obj_entries(objs, o, n - 1);
    if i < before.len() {
        lemma_from_obj(objs, o, n - 1, i)
    } else {
        n - 1
    }
}

/// Every listed entry is a visible entry of an object that takes part.
proof fn lemma_origin(objs: Seq<ObjectFile>, only_alive: bool, n: int, i: int) -> (r: (int, int))
    requires
        0 <= n <= objs.len(),
        0 <= i < entries_to(objs, only_alive, n).len(),
    ensures
        0 <= r.0 < n,
        0 <= r.1 < objs[r.0].nlists.len(),
        is_visible(objs[r.0].nlists[r.1]),
        only_alive ==> objs[r.0].is_alive,
        entries_to(objs, only_alive, n)[i] == entry_of(objs, r.0, r.1),
    decreases n,
{
    let before = entries_to(objs, only_alive, n - 1);
    if i < before.len() {
        lemma_origin(objs, only_alive, n - 1, i)
    } else {
        let own = objs[n - 1].nlists.len() as int;
        let k = lemma_from_obj(objs, n - 1, own, i - before.len());
        (n - 1, k)
    }
}

proof fn lemma_attained(entries: Seq<Entry>, id: int, n: int) -> (k: int)
    requires
        0 <= n <= entries.len(),
        best_rank(entries, id, n) != u64::MAX,
    ensures
        0 <= k < n,
        entries[k].sym == id,
        rank_of(entries[k]) == Some(best_rank(entries, id, n)),
    decreases n,
{
    let e = entries[n - 1];
    let before = best_rank(entries, id, n - 1);
    if n > 0 && e.sym == id && rank_of(e) is Some && rank_of(e)->0 < before {
        n - 1
    } else {
        lemma_attained(entries, id, n - 1)
    }
}

/// True when every best definition of the symbol is placed.
spec fn best_placed(
    objs: Seq<ObjectFile>,
    isecs: Seq<InputSection>,
    entries: Seq<Entry>,
    id: int,
    best: u64,
) -> bool {
    forall|k: int|
        0 <= k < entries.len() && (#[trigger] entries[k]).sym == id && rank_of(entries[k]) == Some(
            best,
        ) ==> (entries[k].nlist.n_type & 0x0e == 0x0e ==> place_of(objs, isecs, entries[k]) is Some)
}

/// The claims of the first `n` entries leave the winning rank as it is and
/// the symbol as the last best one of them claims it.
proof fn lemma_claims(
    objs: Seq<ObjectFile>,
    isecs: Seq<InputSection>,
    only_alive: bool,
    entries: Seq<Entry>,
    start: Claims,
    n: int,
    id: int,
)
    requires
        0 <= n <= entries.len(),
        0 <= id < start.syms.len(),
        start.best.len() == start.syms.len(),
        entries_ok(entries, objs.len() as int, start.syms.len() as int),
        best_placed(objs, isecs, entries, id, start.best[id]),
    ensures
        ({
            let c = claims_to(objs, isecs, only_alive, entries, start, n);
            &&& c.syms.len() == start.syms.len()
            &&& c.best.len() == start.best.len()
            &&& c.best[id] == start.best[id]
            &&& {
                ||| c.syms[id] == start.syms[id] && forall|k: int|
                    0 <= k < n && (#[trigger] entries[k]).sym == id ==> rank_of(entries[k]) != Some(
                        start.best[id],
                    )
                ||| exists|k: int, s: Symbol|
                    0 <= k < n && (#[trigger] entries[k]).sym == id && rank_of(entries[k]) == Some(
                        start.best[id],
                    ) && c.syms[id] == (#[trigger] claimed_symbol(
                        s,
                        entries[k],
                        place_of(objs, isecs, entries[k]),
                    )).0 && s.name == start.syms[id].name && s.flags.is_weak_ref
                        == start.syms[id].flags.is_weak_ref
            }
        }),
    decreases n,
{
    if n > 0 {
        lemma_claims(objs, isecs, only_alive, entries, start, n - 1, id);
        let before = claims_to(objs, isecs, only_alive, entries, start, n - 1);
        let c = claims_to(objs, isecs, only_alive, entries, start, n);
        let e = entries[n - 1];
        assert(e.sym < start.syms.len());
        let place = place_of(objs, isecs, e);
        if e.sym == id && rank_of(e) == Some(start.best[id]) {
            assert(entries[n - 1].sym == id);
            assert(c.syms[id] == claimed_symbol(before.syms[id], entries[n - 1], place).0);
            assert(before.syms[id].name == start.syms[id].name);
        } else {
            assert(c.syms[id] == before.syms[id]);
            if before.syms[id] != start.syms[id] || exists|k: int|
                0 <= k < n - 1 && (#[trigger] entries[k]).sym == id && rank_of(entries[k]) == Some(
                    start.best[id],
                ) {
                let (k, s) = choose|k: int, s: Symbol|
                    0 <= k < n - 1 && (#[trigger] entries[k]).sym == id && rank_of(entries[k])
                        == Some(start.best[id]) && before.syms[id] == (#[trigger] claimed_symbol(
                        s,
                        entries[k],
                        place_of(objs, isecs, entries[k]),
                    )).0 && s.name == start.syms[id].name && s.flags.is_weak_ref
                        == start.syms[id].flags.is_weak_ref;
                assert(entries[k].sym == id);
            }
        }
    }
}

/// Merging tentative definitions leaves a symbol alone that is not settled
/// as tentative.
proof fn lemma_not_merged(
    entries: Seq<Entry>,
    best: Seq<u64>,
    syms: Seq<Symbol>,
    n: int,
    id: int,
)
    requires
        0 <= n <= entries.len(),
        0 <= id < syms.len(),
        best[id] / 0x1_0000_0000 != 3,
        forall|k: int| 0 <= k < entries.len() ==> (#[trigger] entries[k]).sym < syms.len(),
    ensures
        commons_to(entries, best, syms, n).len() == syms.len(),
        commons_to(entries, best, syms, n)[id] == syms[id],
    decreases n,
{
    if n > 0 {
        lemma_not_merged(entries, best, syms, n - 1, id);
        assert(entries[n - 1].sym < syms.len());
    }
}

proof fn lemma_no_exporter(dylibs: Seq<DylibFile>, name: Seq<u8>, best: u64, d: int)
    requires
        0 <= d,
        forall|e: int|
            0 <= e < dylibs.len() ==> !bytes::views((#[trigger] dylibs[e]).exports@).contains(name),
    ensures
        exporter(dylibs, name, best, d) is None,
    decreases dylibs.len() - d,
{
    if d < dylibs.len() {
        assert(!bytes::views(dylibs[d].exports@).contains(name));
        lemma_no_exporter(dylibs, name, best, d + 1);
    }
}

proof fn lemma_described(
    objs: Seq<ObjectFile>,
    isecs: Seq<InputSection>,
    o: int,
    k: int,
    s: Symbol,
)
    requires
        0 <= o < objs.len() < u32::MAX,
        isecs.len() < u32::MAX,
        crate::input_files::subsecs_exist(isecs, objs[o].subsecs@),
        is_definition(objs[o].nlists[k]),
        is_placed(objs, isecs, o, k),
    ensures
        ({
            let e = entry_of(objs, o, k);
            is_defined_as(objs, isecs, o, k, claimed_symbol(s, e, place_of(objs, isecs, e)).0)
        }),
{
    let n = objs[o].nlists[k];
    let d = n.n_desc;
    let t = n.n_type;
    assert(0x20u16 | 0x10u16 == 0x30u16 && (t & 0x0e == 0x0e ==> t & 0x0e != 0x02)) by (bit_vector);
    if n.n_type & 0x0e == 0x0e {
        lemma_place_exists(isecs, objs[o].subsecs@, n.n_value);
    }
}

proof fn lemma_ranges_bound(ext: Seq<(u64, u64)>, addr: u64, n: int)
    requires
        0 <= n <= ext.len(),
    ensures
        0 <= crate::input_files::ranges_up_to(ext, addr, n) <= n,
        crate::input_files::ranges_up_to(ext, addr, n) > 0 ==> ext[crate::input_files::ranges_up_to(
            ext,
            addr,
            n,
        ) - 1].0 <= addr,
    decreases n,
{
    if n > 0 {
        lemma_ranges_bound(ext, addr, n - 1);
    }
}

/// The place of an address is one of the listed subsections, and the
/// subsection's own address and the offset make the address.
pub proof fn lemma_place_exists(isecs: Seq<InputSection>, subsecs: Seq<usize>, addr: u64)
    requires
        crate::input_files::subsecs_exist(isecs, subsecs),
    ensures
        subsec_at(isecs, subsecs, addr) matches Some((i, off)) ==> i < isecs.len()
            && subsecs.contains(i) && isecs[i as int].input_addr + off == addr && (off
            < isecs[i as int].size || off == 0),
{
    let ext = crate::input_files::extents(isecs, subsecs);
    lemma_ranges_bound(ext, addr, ext.len() as int);
    let n = crate::input_files::ranges_up_to(ext, addr, ext.len() as int);
    if n > 0 {
        assert(subsecs[n - 1] < isecs.len());
        assert(subsecs.contains(subsecs[n - 1]));
    }
}

/// The best definition wins: if a file defines the symbol, then after the
/// round it belongs to a file whose definition holds against every other
/// one, and it is defined as that definition says. This holds for every
/// round in which no shared library comes between: one that has a live
/// definition, one for a relocatable output, or one in which no library
/// exports the name.
pub proof fn lemma_best_definition_wins(
    objs: Seq<ObjectFile>,
    isecs: Seq<InputSection>,
    dylibs: Seq<DylibFile>,
    roots: Seq<u32>,
    only_alive: bool,
    relocatable: bool,
    syms: Seq<Symbol>,
    id: int,
    o: int,
    k: int,
) -> (w: (int, int))
    requires
        objs_ok(objs, isecs, syms.len() as int),
        0 <= id < syms.len(),
        defines(objs, only_alive, id, o, k),
        objs[o].is_alive || relocatable || forall|e: int|
            0 <= e < dylibs.len() ==> !bytes::views((#[trigger] dylibs[e]).exports@).contains(
                syms[id].name@,
            ),
        forall|p: int, j: int| #[trigger]
            defines(objs, only_alive, id, p, j) && holds_against(objs, p, j, o, k) ==> is_placed(
                objs,
                isecs,
                p,
                j,
            ),
    ensures
        defines(objs, only_alive, id, w.0, w.1),
        forall|p: int, j: int| #[trigger]
            defines(objs, only_alive, id, p, j) ==> holds_against(objs, w.0, w.1, p, j),
        is_defined_as(
            objs,
            isecs,
            w.0,
            w.1,
            resolved(objs, isecs, dylibs, roots, only_alive, relocatable, syms).0[id],
        ),
{
    let entries = entries_to(objs, only_alive, objs.len() as int);
    let n = entries.len() as int;
    lemma_entries_ok(objs, isecs, only_alive, objs.len() as int, syms.len() as int);
    let best = Seq::new(syms.len(), |i: int| best_rank(entries, i, n));
    let start = Claims { syms, best, dups: Seq::empty() };
    let c = claims_to(objs, isecs, only_alive, entries, start, n);
    lemma_best_placed(objs, isecs, only_alive, id, o, k);
    lemma_claims(objs, isecs, only_alive, entries, start, n, id);
    let first = lemma_attained(entries, id, n);
    assert(entries[first].sym == id);
    let (i, s) = choose|i: int, s: Symbol|
        0 <= i < n && (#[trigger] entries[i]).sym == id && rank_of(entries[i]) == Some(best[id])
            && c.syms[id] == (#[trigger] claimed_symbol(
            s,
            entries[i],
            place_of(objs, isecs, entries[i]),
        )).0 && s.name == syms[id].name && s.flags.is_weak_ref == syms[id].flags.is_weak_ref;
    let (p, j) = lemma_winner(objs, isecs, only_alive, id, o, k, i);
    assert(crate::input_files::subsecs_exist(isecs, objs[p].subsecs@));
    lemma_described(objs, isecs, p, j, s);
    lemma_not_merged(entries, c.best, c.syms, n, id);
    let used = is_used(entries, roots, id);
    let weakly = referenced(entries, id, true, n);
    lemma_settles(objs, isecs, dylibs, relocatable, c.syms[id], best[id], used, weakly, p, j);
    (p, j)
}

/// The best definitions are placed, if those are that hold against one.
proof fn lemma_best_placed(
    objs: Seq<ObjectFile>,
    isecs: Seq<InputSection>,
    only_alive: bool,
    id: int,
    o: int,
    k: int,
)
    requires
        objs.len() < u32::MAX,
        defines(objs, only_alive, id, o, k),
        forall|p: int, j: int| #[trigger]
            defines(objs, only_alive, id, p, j) && holds_against(objs, p, j, o, k) ==> is_placed(
                objs,
                isecs,
                p,
                j,
            ),
    ensures
        ({
            let entries = entries_to(objs, only_alive, objs.len() as int);
            let best = best_rank(entries, id, entries.len() as int);
            &&& best < 0x3_0000_0000
            &&& objs[o].is_alive ==> best < 0x2_0000_0000
            &&& best_placed(objs, isecs, entries, id, best)
        }),
{
    let entries = entries_to(objs, only_alive, objs.len() as int);
    let n = entries.len() as int;
    let best = best_rank(entries, id, n);
    lemma_listed(objs, only_alive, objs.len() as int, o, k);
    let at = entries.index_of(entry_of(objs, o, k));
    assert(entries[at] == entry_of(objs, o, k));
    lemma_best_rank(entries, id, n, at);
    assert forall|i: int|
        0 <= i < n && (#[trigger] entries[i]).sym == id && rank_of(entries[i]) == Some(best)
            && entries[i].nlist.n_type & 0x0e == 0x0e implies place_of(objs, isecs, entries[i])
        is Some by {
        let (p, j) = lemma_winner(objs, isecs, only_alive, id, o, k, i);
        let t = objs[p].nlists[j].n_type;
        assert(t & 0x0e == 0x0e ==> t & 0x0e != 0x02) by (bit_vector);
    }
}

/// An entry with the best rank is a definition that holds against all.
proof fn lemma_winner(
    objs: Seq<ObjectFile>,
    isecs: Seq<InputSection>,
    only_alive: bool,
    id: int,
    o: int,
    k: int,
    i: int,
) -> (w: (int, int))
    requires
        defines(objs, only_alive, id, o, k),
        forall|p: int, j: int| #[trigger]
            defines(objs, only_alive, id, p, j) && holds_against(objs, p, j, o, k) ==> is_placed(
                objs,
                isecs,
                p,
                j,
            ),
        ({
            let entries = entries_to(objs, only_alive, objs.len() as int);
            &&& 0 <= i < entries.len()
            &&& entries[i].sym == id
            &&& rank_of(entries[i]) == Some(best_rank(entries, id, entries.len() as int))
        }),
    ensures
        entries_to(objs, only_alive, objs.len() as int)[i] == entry_of(objs, w.0, w.1),
        defines(objs, only_alive, id, w.0, w.1),
        is_placed(objs, isecs, w.0, w.1),
        forall|p: int, j: int| #[trigger]
            defines(objs, only_alive, id, p, j) ==> holds_against(objs, w.0, w.1, p, j),
{
    let entries = entries_to(objs, only_alive, objs.len() as int);
    let n = entries.len() as int;
    let (p, j) = lemma_origin(objs, only_alive, objs.len() as int, i);
    lemma_outranks(objs, only_alive, id, o, k, i);
    assert(is_definition(objs[p].nlists[j]));
    assert(defines(objs, only_alive, id, p, j));
    assert forall|q: int, l: int| #[trigger]
        defines(objs, only_alive, id, q, l) implies holds_against(objs, p, j, q, l) by {
        lemma_outranks(objs, only_alive, id, q, l, i);
        lemma_holds(objs, p, j, q, l);
    }
    (p, j)
}

/// No definition ranks before an entry with the best rank.
proof fn lemma_outranks(
    objs: Seq<ObjectFile>,
    only_alive: bool,
    id: int,
    o: int,
    k: int,
    i: int,
)
    requires
        defines(objs, only_alive, id, o, k),
        ({
            let entries = entries_to(objs, only_alive, objs.len() as int);
            &&& 0 <= i < entries.len()
            &&& entries[i].sym == id
            &&& rank_of(entries[i]) == Some(best_rank(entries, id, entries.len() as int))
        }),
    ensures
        ({
            let e = entries_to(objs, only_alive, objs.len() as int)[i];
            &&& rank_of(e)->0 <= rank_of(entry_of(objs, o, k))->0
            &&& is_definition(e.nlist)
        }),
{
    let entries = entries_to(objs, only_alive, objs.len() as int);
    let n = entries.len() as int;
    lemma_listed(objs, only_alive, objs.len() as int, o, k);
    let at = entries.index_of(entry_of(objs, o, k));
    assert(entries[at] == entry_of(objs, o, k));
    lemma_best_rank(entries, id, n, at);
    lemma_rank_order(entries[at], entries[i]);
}

/// The end of a round leaves a definition alone that no library can take.
proof fn lemma_settles(
    objs: Seq<ObjectFile>,
    isecs: Seq<InputSection>,
    dylibs: Seq<DylibFile>,
    relocatable: bool,
    s: Symbol,
    best: u64,
    used: bool,
    weakly: bool,
    o: int,
    k: int,
)
    requires
        is_defined_as(objs, isecs, o, k, s),
        best < 0x2_0000_0000 || relocatable || forall|e: int|
            0 <= e < dylibs.len() ==> !bytes::views((#[trigger] dylibs[e]).exports@).contains(
                s.name@,
            ),
    ensures
        is_defined_as(
            objs,
            isecs,
            o,
            k,
            super::resolve::settled(dylibs, relocatable, s, best, used, weakly),
        ),
{
    if best >= 0x2_0000_0000 && !relocatable {
        lemma_no_exporter(dylibs, s.name@, best, 0);
    }
}

/// A strong definition wins: if live files define a symbol strongly, and
/// keep what they define, then after the round one of these definitions owns
/// it, namely that of the earliest file. The symbol is not weak.
pub proof fn lemma_strong_definition_wins(
    objs: Seq<ObjectFile>,
    isecs: Seq<InputSection>,
    dylibs: Seq<DylibFile>,
    roots: Seq<u32>,
    only_alive: bool,
    relocatable: bool,
    syms: Seq<Symbol>,
    id: int,
    o: int,
    k: int,
) -> (w: (int, int))
    requires
        objs_ok(objs, isecs, syms.len() as int),
        0 <= id < syms.len(),
        defines_strongly(objs, only_alive, id, o, k),
        forall|p: int, j: int| #[trigger]
            defines_strongly(objs, only_alive, id, p, j) ==> is_placed(objs, isecs, p, j),
    ensures
        defines_strongly(objs, only_alive, id, w.0, w.1),
        forall|p: int, j: int| #[trigger]
            defines_strongly(objs, only_alive, id, p, j) ==> objs[w.0].priority <= objs[p].priority,
        ({
            let s = resolved(objs, isecs, dylibs, roots, only_alive, relocatable, syms).0[id];
            &&& s.defined_by() == Origin::Obj(w.0 as u32)
            &&& !s.flags.is_weak_def
            &&& is_defined_as(objs, isecs, w.0, w.1, s)
        }),
{
    assert forall|p: int, j: int| #[trigger]
        defines(objs, only_alive, id, p, j) && holds_against(objs, p, j, o, k) implies is_placed(
        objs,
        isecs,
        p,
        j,
    ) by {
        assert(defines_strongly(objs, only_alive, id, p, j));
    }
    let w = lemma_best_definition_wins(
        objs,
        isecs,
        dylibs,
        roots,
        only_alive,
        relocatable,
        syms,
        id,
        o,
        k,
    );
    assert(defines(objs, only_alive, id, o, k));
    assert forall|p: int, j: int| #[trigger]
        defines_strongly(objs, only_alive, id, p, j) implies objs[w.0].priority
        <= objs[p].priority by {
        assert(defines(objs, only_alive, id, p, j));
    }
    w
}

proof fn lemma_dups(
    objs: Seq<ObjectFile>,
    isecs: Seq<InputSection>,
    entries: Seq<Entry>,
    start: Claims,
    n: int,
    id: int,
)
    requires
        0 <= n <= entries.len(),
        0 <= id < start.syms.len(),
        start.best.len() == start.syms.len(),
        start.dups.len() == 0,
        entries_ok(entries, objs.len() as int, start.syms.len() as int),
        forall|i: int|
            0 <= i < start.best.len() ==> #[trigger] start.best[i] == best_rank(
                entries,
                i,
                entries.len() as int,
            ),
    ensures
        ({
            let c = claims_to(objs, isecs, true, entries, start, n);
            &&& c.syms.len() == start.syms.len()
            &&& c.best.len() == start.best.len()
            &&& c.best[id] == start.best[id] || c.best[id] == u64::MAX
            &&& best_placed(objs, isecs, entries, id, start.best[id]) && start.best[id]
                < 0x1_0000_0000 ==> forall|k: int|
                0 <= k < n && (#[trigger] entries[k]).sym == id && rank_of(entries[k]) is Some
                    && start.best[id] < rank_of(entries[k])->0 < 0x1_0000_0000 ==> c.dups.contains(
                    (entries[k].sym, entries[k].obj),
                )
            &&& forall|i: int|
                0 <= i < c.dups.len() && (#[trigger] c.dups[i]).0 == id ==> start.best[id]
                    < 0x1_0000_0000 && exists|k: int|
                    0 <= k < n && (#[trigger] entries[k]).sym == id && entries[k].obj
                        == c.dups[i].1 && rank_of(entries[k]) is Some && start.best[id] < rank_of(
                        entries[k],
                    )->0 < 0x1_0000_0000
        }),
    decreases n,
{
    if n > 0 {
        lemma_dups(objs, isecs, entries, start, n - 1, id);
        let before = claims_to(objs, isecs, true, entries, start, n - 1);
        let c = claims_to(objs, isecs, true, entries, start, n);
        let e = entries[n - 1];
        assert(e.sym < start.syms.len());
        if e.sym == id && rank_of(e) is Some {
            lemma_best_rank(entries, id, entries.len() as int, n - 1);
            assert(start.best[id] == best_rank(entries, id, entries.len() as int));
        }
        if best_placed(objs, isecs, entries, id, start.best[id]) {
            lemma_claims(objs, isecs, true, entries, start, n - 1, id);
        }
        let grew = c.dups.len() > before.dups.len();
        if grew {
            assert(c.dups == before.dups.push((e.sym, e.obj)));
            assert(c.dups[before.dups.len() as int] == (e.sym, e.obj));
        }
        if best_placed(objs, isecs, entries, id, start.best[id]) && start.best[id]
            < 0x1_0000_0000 {
            assert forall|k: int|
                0 <= k < n && (#[trigger] entries[k]).sym == id && rank_of(entries[k]) is Some
                    && start.best[id] < rank_of(entries[k])->0
                    < 0x1_0000_0000 implies c.dups.contains((entries[k].sym, entries[k].obj)) by {
                if k < n - 1 {
                    assert(before.dups.contains((entries[k].sym, entries[k].obj)));
                    let i = before.dups.index_of((entries[k].sym, entries[k].obj));
                    assert(c.dups[i] == (entries[k].sym, entries[k].obj));
                }
            }
        }
        assert forall|i: int| 0 <= i < c.dups.len() && (#[trigger] c.dups[i]).0 == id implies
            start.best[id] < 0x1_0000_0000 && exists|k: int|
            0 <= k < n && (#[trigger] entries[k]).sym == id && entries[k].obj == c.dups[i].1
                && rank_of(entries[k]) is Some && start.best[id] < rank_of(entries[k])->0
                < 0x1_0000_0000 by {
            if i < before.dups.len() {
                assert(before.dups[i] == c.dups[i]);
                let k = choose|k: int|
                    0 <= k < n - 1 && (#[trigger] entries[k]).sym == id && entries[k].obj
                        == before.dups[i].1 && rank_of(entries[k]) is Some && start.best[id]
                        < rank_of(entries[k])->0 < 0x1_0000_0000;
                assert(entries[k].sym == id);
            } else {
                assert(entries[n - 1].sym == id);
            }
        }
    }
}

proof fn lemma_strong_rank(e: Entry)
    ensures
        rank_of(e) is Some && rank_of(e)->0 < 0x1_0000_0000 <==> is_definition(e.nlist) && e.alive
            && is_strong(e.nlist),
        is_definition(e.nlist) && e.alive && is_strong(e.nlist) ==> rank_of(e) == Some(
            e.priority as u64,
        ),
{
}

/// Strong definitions of one name by two live files clash: the later one is
/// reported, if what the live files define strongly is kept.
pub proof fn lemma_duplicates_reported(
    objs: Seq<ObjectFile>,
    isecs: Seq<InputSection>,
    dylibs: Seq<DylibFile>,
    roots: Seq<u32>,
    relocatable: bool,
    syms: Seq<Symbol>,
    id: int,
    o: int,
    k: int,
    p: int,
    j: int,
)
    requires
        objs_ok(objs, isecs, syms.len() as int),
        0 <= id < syms.len() <= u32::MAX,
        defines_strongly(objs, true, id, o, k),
        defines_strongly(objs, true, id, p, j),
        objs[o].priority < objs[p].priority,
        forall|q: int, l: int| #[trigger]
            defines_strongly(objs, true, id, q, l) ==> is_placed(objs, isecs, q, l),
    ensures
        resolved(objs, isecs, dylibs, roots, true, relocatable, syms).1.contains(
            (id as u32, p as usize),
        ),
{
    let entries = entries_to(objs, true, objs.len() as int);
    let n = entries.len() as int;
    lemma_entries_ok(objs, isecs, true, objs.len() as int, syms.len() as int);
    let best = Seq::new(syms.len(), |i: int| best_rank(entries, i, n));
    let start = Claims { syms, best, dups: Seq::empty() };
    lemma_listed(objs, true, objs.len() as int, o, k);
    lemma_listed(objs, true, objs.len() as int, p, j);
    let a = entries.index_of(entry_of(objs, o, k));
    let b = entries.index_of(entry_of(objs, p, j));
    assert(entries[a] == entry_of(objs, o, k) && entries[b] == entry_of(objs, p, j));
    lemma_strong_rank(entries[a]);
    lemma_strong_rank(entries[b]);
    lemma_best_rank(entries, id, n, a);
    assert forall|i: int|
        0 <= i < n && (#[trigger] entries[i]).sym == id && rank_of(entries[i]) == Some(best[id])
            && entries[i].nlist.n_type & 0x0e == 0x0e implies place_of(objs, isecs, entries[i])
        is Some by {
        let (q, l) = lemma_origin(objs, true, objs.len() as int, i);
        lemma_strong_rank(entries[i]);
        assert(defines_strongly(objs, true, id, q, l));
        let t = objs[q].nlists[l].n_type;
        assert(t & 0x0e == 0x0e ==> t & 0x0e != 0x02) by (bit_vector);
    }
    lemma_dups(objs, isecs, entries, start, n, id);
}

/// Only clashes are reported: what is reported is a strong definition of a
/// live file, and an earlier live file defines the name strongly too.
pub proof fn lemma_reports_are_duplicates(
    objs: Seq<ObjectFile>,
    isecs: Seq<InputSection>,
    dylibs: Seq<DylibFile>,
    roots: Seq<u32>,
    relocatable: bool,
    syms: Seq<Symbol>,
    i: int,
) -> (r: ((int, int), (int, int)))
    requires
        objs_ok(objs, isecs, syms.len() as int),
        0 <= i < resolved(objs, isecs, dylibs, roots, true, relocatable, syms).1.len(),
        resolved(objs, isecs, dylibs, roots, true, relocatable, syms).1[i].0 < syms.len(),
    ensures
        ({
            let (id, lost) = resolved(objs, isecs, dylibs, roots, true, relocatable, syms).1[i];
            let ((o, k), (p, j)) = r;
            &&& lost == p
            &&& defines_strongly(objs, true, id as int, o, k)
            &&& defines_strongly(objs, true, id as int, p, j)
            &&& objs[o].priority < objs[p].priority
        }),
{
    let entries = entries_to(objs, true, objs.len() as int);
    let n = entries.len() as int;
    lemma_entries_ok(objs, isecs, true, objs.len() as int, syms.len() as int);
    let best = Seq::new(syms.len(), |i: int| best_rank(entries, i, n));
    let start = Claims { syms, best, dups: Seq::empty() };
    let c = claims_to(objs, isecs, true, entries, start, n);
    let (sym, lost) = c.dups[i];
    let id = sym as int;
    lemma_dups(objs, isecs, entries, start, n, id);
    assert(c.dups[i].0 == id);
    let b = choose|k: int|
        0 <= k < n && (#[trigger] entries[k]).sym == id && entries[k].obj == c.dups[i].1
            && rank_of(entries[k]) is Some && best[id] < rank_of(entries[k])->0 < 0x1_0000_0000;
    let a = lemma_attained(entries, id, n);
    let (o, k) = lemma_origin(objs, true, objs.len() as int, a);
    let (p, j) = lemma_origin(objs, true, objs.len() as int, b);
    lemma_strong_rank(entries[a]);
    lemma_strong_rank(entries[b]);
    ((o, k), (p, j))
}

proof fn lemma_owner_claimed(
    objs: Seq<ObjectFile>,
    isecs: Seq<InputSection>,
    only_alive: bool,
    entries: Seq<Entry>,
    start: Claims,
    n: int,
    id: int,
)
    requires
        0 <= n <= entries.len(),
        0 <= id < start.syms.len(),
        start.best.len() == start.syms.len(),
        entries_ok(entries, objs.len() as int, start.syms.len() as int),
        !(start.syms[id].defined_by() is Obj),
    ensures
        ({
            let c = claims_to(objs, isecs, only_alive, entries, start, n);
            &&& c.syms.len() == start.syms.len()
            &&& c.best.len() == start.best.len()
            &&& c.best[id] == start.best[id] || c.best[id] == u64::MAX
            &&& c.syms[id].defined_by() is Obj ==> exists|k: int, s: Symbol|
                0 <= k < n && (#[trigger] entries[k]).sym == id && rank_of(entries[k]) == Some(
                    start.best[id],
                ) && c.syms[id] == (#[trigger] claimed_symbol(
                    s,
                    entries[k],
                    place_of(objs, isecs, entries[k]),
                )).0
        }),
    decreases n,
{
    if n > 0 {
        lemma_owner_claimed(objs, isecs, only_alive, entries, start, n - 1, id);
        let before = claims_to(objs, isecs, only_alive, entries, start, n - 1);
        let c = claims_to(objs, isecs, only_alive, entries, start, n);
        let e = entries[n - 1];
        assert(e.sym < start.syms.len());
        if c.syms[id].defined_by() is Obj {
            if e.sym == id && rank_of(e) == Some(before.best[id]) {
                assert(rank_of(e)->0 < u64::MAX);
                assert(entries[n - 1].sym == id);
                let place = place_of(objs, isecs, entries[n - 1]);
                assert(c.syms[id] == claimed_symbol(before.syms[id], entries[n - 1], place).0);
            } else {
                assert(c.syms[id] == before.syms[id]);
                let (k, s) = choose|k: int, s: Symbol|
                    0 <= k < n - 1 && (#[trigger] entries[k]).sym == id && rank_of(entries[k])
                        == Some(start.best[id]) && before.syms[id] == (#[trigger] claimed_symbol(
                        s,
                        entries[k],
                        place_of(objs, isecs, entries[k]),
                    )).0;
                assert(entries[k].sym == id);
            }
        }
    }
}

proof fn lemma_merging_keeps(
    entries: Seq<Entry>,
    best: Seq<u64>,
    syms: Seq<Symbol>,
    n: int,
    id: int,
)
    requires
        0 <= n <= entries.len(),
        0 <= id < syms.len(),
        forall|k: int| 0 <= k < entries.len() ==> (#[trigger] entries[k]).sym < syms.len(),
    ensures
        ({
            let m = commons_to(entries, best, syms, n);
            &&& m.len() == syms.len()
            &&& m[id].flags == syms[id].flags
            &&& m[id].kind == syms[id].kind
            &&& m[id].file == syms[id].file
            &&& m[id].isec == syms[id].isec
            &&& m[id].name == syms[id].name
        }),
    decreases n,
{
    if n > 0 {
        lemma_merging_keeps(entries, best, syms, n - 1, id);
        assert(entries[n - 1].sym < syms.len());
    }
}

/// Whoever owns a symbol after a round has the best definition: it holds
/// against every other one, and the symbol is weak exactly if it is. So the
/// owner's definition is strong whenever a live file has a strong one.
pub proof fn lemma_owner_is_best(
    objs: Seq<ObjectFile>,
    isecs: Seq<InputSection>,
    dylibs: Seq<DylibFile>,
    roots: Seq<u32>,
    only_alive: bool,
    relocatable: bool,
    syms: Seq<Symbol>,
    id: int,
) -> (w: (int, int))
    requires
        objs_ok(objs, isecs, syms.len() as int),
        0 <= id < syms.len(),
        !(syms[id].defined_by() is Obj),
        resolved(objs, isecs, dylibs, roots, only_alive, relocatable, syms).0[id].defined_by()
            is Obj,
    ensures
        defines(objs, only_alive, id, w.0, w.1),
        forall|p: int, j: int| #[trigger]
            defines(objs, only_alive, id, p, j) ==> holds_against(objs, w.0, w.1, p, j),
        ({
            let s = resolved(objs, isecs, dylibs, roots, only_alive, relocatable, syms).0[id];
            &&& s.defined_by() == Origin::Obj(w.0 as u32)
            &&& s.flags.is_weak_def == (objs[w.0].nlists[w.1].n_desc & 0x80 != 0)
            &&& forall|p: int, j: int| #[trigger]
                defines_strongly(objs, only_alive, id, p, j) ==> !s.flags.is_weak_def
        }),
{
    let entries = entries_to(objs, only_alive, objs.len() as int);
    let n = entries.len() as int;
    lemma_entries_ok(objs, isecs, only_alive, objs.len() as int, syms.len() as int);
    let best = Seq::new(syms.len(), |i: int| best_rank(entries, i, n));
    let start = Claims { syms, best, dups: Seq::empty() };
    let c = claims_to(objs, isecs, only_alive, entries, start, n);
    lemma_owner_claimed(objs, isecs, only_alive, entries, start, n, id);
    lemma_merging_keeps(entries, c.best, c.syms, n, id);
    assert(c.syms[id].defined_by() is Obj);
    let (i, t) = choose|k: int, s: Symbol|
        0 <= k < n && (#[trigger] entries[k]).sym == id && rank_of(entries[k]) == Some(best[id])
            && c.syms[id] == (#[trigger] claimed_symbol(
            s,
            entries[k],
            place_of(objs, isecs, entries[k]),
        )).0;
    let (o, k) = lemma_origin(objs, only_alive, objs.len() as int, i);
    assert(is_definition(objs[o].nlists[k]));
    assert(defines(objs, only_alive, id, o, k));
    assert forall|p: int, j: int| #[trigger]
        defines(objs, only_alive, id, p, j) implies holds_against(objs, o, k, p, j) by {
        lemma_outranks(objs, only_alive, id, p, j, i);
        lemma_holds(objs, o, k, p, j);
    }
    let s = resolved(objs, isecs, dylibs, roots, only_alive, relocatable, syms).0[id];
    assert forall|p: int, j: int| #[trigger]
        defines_strongly(objs, only_alive, id, p, j) implies !s.flags.is_weak_def by {
        assert(defines(objs, only_alive, id, p, j));
        assert(holds_against(objs, o, k, p, j));
    }
    (o, k)
}

/// True when the round or the command line refers to the symbol.
pub open spec fn is_wanted(
    objs: Seq<ObjectFile>,
    roots: Seq<u32>,
    only_alive: bool,
    id: int,
) -> bool {
    roots.contains(id as u32) || exists|o: int, k: int| #[trigger]
        takes_part(objs, only_alive, id, o, k) && objs[o].nlists[k].n_type & 0x0e == 0
}

proof fn lemma_referenced(objs: Seq<ObjectFile>, only_alive: bool, id: int, weakly: bool)
    requires
        objs.len() < u32::MAX,
        forall|o: int|
            0 <= o < objs.len() ==> (#[trigger] objs[o]).nlists.len() == objs[o].syms.len(),
    ensures
        ({
            let entries = entries_to(objs, only_alive, objs.len() as int);
            referenced(entries, id, weakly, entries.len() as int) <==> exists|o: int, k: int|
                #[trigger] takes_part(objs, only_alive, id, o, k) && objs[o].nlists[k].n_type & 0x0e
                    == 0 && (weakly ==> objs[o].nlists[k].n_desc & 0x40 != 0)
        }),
{
    let entries = entries_to(objs, only_alive, objs.len() as int);
    let n = entries.len() as int;
    if referenced(entries, id, weakly, n) {
        let i = choose|k: int|
            0 <= k < n && (#[trigger] entries[k]).sym == id && entries[k].nlist.kind() == 0 && (
            weakly ==> entries[k].nlist.n_desc & 0x40 != 0);
        let (o, k) = lemma_origin(objs, only_alive, objs.len() as int, i);
        assert(takes_part(objs, only_alive, id, o, k));
    }
    if exists|o: int, k: int| #[trigger]
        takes_part(objs, only_alive, id, o, k) && objs[o].nlists[k].n_type & 0x0e == 0 && (weakly
            ==> objs[o].nlists[k].n_desc & 0x40 != 0) {
        let (o, k) = choose|o: int, k: int| #[trigger]
            takes_part(objs, only_alive, id, o, k) && objs[o].nlists[k].n_type & 0x0e == 0 && (
            weakly ==> objs[o].nlists[k].n_desc & 0x40 != 0);
        lemma_listed(objs, only_alive, objs.len() as int, o, k);
        let i = entries.index_of(entry_of(objs, o, k));
        assert(entries[i] == entry_of(objs, o, k));
        assert(entries[i].sym == id);
    }
}

/// After a round a symbol is used exactly if a file of the round refers to
/// it or the command line names it, and weakly referenced if it was or if a
/// file of the round refers to it weakly.
pub proof fn lemma_references_noted(
    objs: Seq<ObjectFile>,
    isecs: Seq<InputSection>,
    dylibs: Seq<DylibFile>,
    roots: Seq<u32>,
    only_alive: bool,
    relocatable: bool,
    syms: Seq<Symbol>,
    id: int,
)
    requires
        objs_ok(objs, isecs, syms.len() as int),
        0 <= id < syms.len(),
    ensures
        ({
            let s = resolved(objs, isecs, dylibs, roots, only_alive, relocatable, syms).0[id];
            &&& s.flags.is_used == is_wanted(objs, roots, only_alive, id)
            &&& s.name == syms[id].name
            &&& (exists|o: int, k: int| #[trigger]
                takes_part(objs, only_alive, id, o, k) && objs[o].nlists[k].n_type & 0x0e == 0
                    && objs[o].nlists[k].n_desc & 0x40 != 0) ==> s.flags.is_weak_ref
            &&& s.flags.is_weak_ref && !syms[id].flags.is_weak_ref ==> exists|o: int, k: int|
                #[trigger] takes_part(objs, only_alive, id, o, k) && objs[o].nlists[k].n_type & 0x0e
                    == 0 && objs[o].nlists[k].n_desc & 0x40 != 0
        }),
{
    let entries = entries_to(objs, only_alive, objs.len() as int);
    let n = entries.len() as int;
    lemma_entries_ok(objs, isecs, only_alive, objs.len() as int, syms.len() as int);
    let best = Seq::new(syms.len(), |i: int| best_rank(entries, i, n));
    let start = Claims { syms, best, dups: Seq::empty() };
    let c = claims_to(objs, isecs, only_alive, entries, start, n);
    lemma_claims_frame(objs, isecs, only_alive, entries, start, n, id);
    lemma_merging_keeps(entries, c.best, c.syms, n, id);
    lemma_referenced(objs, only_alive, id, false);
    lemma_referenced(objs, only_alive, id, true);
    assert(is_used(entries, roots, id) <==> is_wanted(objs, roots, only_alive, id));
}

proof fn lemma_claims_frame(
    objs: Seq<ObjectFile>,
    isecs: Seq<InputSection>,
    only_alive: bool,
    entries: Seq<Entry>,
    start: Claims,
    n: int,
    id: int,
)
    requires
        0 <= n <= entries.len(),
        0 <= id < start.syms.len(),
        start.best.len() == start.syms.len(),
        entries_ok(entries, objs.len() as int, start.syms.len() as int),
    ensures
        ({
            let c = claims_to(objs, isecs, only_alive, entries, start, n);
            &&& c.syms.len() == start.syms.len()
            &&& c.best.len() == start.best.len()
            &&& c.syms[id].name == start.syms[id].name
            &&& c.syms[id].flags.is_weak_ref == start.syms[id].flags.is_weak_ref
            &&& (forall|k: int|
                0 <= k < entries.len() && (#[trigger] entries[k]).sym == id ==> rank_of(entries[k])
                    is None) ==> c.syms[id] == start.syms[id] && c.best[id] == start.best[id]
        }),
    decreases n,
{
    if n > 0 {
        lemma_claims_frame(objs, isecs, only_alive, entries, start, n - 1, id);
        assert(entries[n - 1].sym < start.syms.len());
    }
}

/// A shared library defines what nothing better does: a symbol that is
/// wanted, that no live file defines and that no earlier archive member
/// defines, is imported from the first library that exports its name. A
/// tentative definition does not stand in the way.
pub proof fn lemma_library_defines(
    objs: Seq<ObjectFile>,
    isecs: Seq<InputSection>,
    dylibs: Seq<DylibFile>,
    roots: Seq<u32>,
    only_alive: bool,
    syms: Seq<Symbol>,
    id: int,
    d: int,
)
    requires
        objs_ok(objs, isecs, syms.len() as int),
        0 <= id < syms.len(),
        0 <= d < dylibs.len() <= u32::MAX,
        bytes::views(dylibs[d].exports@).contains(syms[id].name@),
        forall|e: int|
            0 <= e < d ==> !bytes::views((#[trigger] dylibs[e]).exports@).contains(syms[id].name@),
        is_wanted(objs, roots, only_alive, id),
        forall|o: int, k: int| #[trigger]
            defines(objs, only_alive, id, o, k) ==> !objs[o].is_alive && dylibs[d].priority
                < objs[o].priority,
    ensures
        ({
            let s = resolved(objs, isecs, dylibs, roots, only_alive, false, syms).0[id];
            &&& s.defined_by() == Origin::Dylib(d as u32)
            &&& s.isec == u32::MAX
            &&& s.flags.is_imported
            &&& s.flags.is_extern
            &&& !s.flags.is_common
        }),
{
    let entries = entries_to(objs, only_alive, objs.len() as int);
    assert forall|i: int|
        0 <= i < entries.len() && (#[trigger] entries[i]).sym == id && rank_of(entries[i])
            is Some implies 0x2_0000_0000 + dylibs[d].priority < rank_of(entries[i])->0 by {
        let (o, k) = lemma_origin(objs, only_alive, objs.len() as int, i);
        if is_definition(objs[o].nlists[k]) {
            assert(defines(objs, only_alive, id, o, k));
        }
    }
    lemma_referenced(objs, only_alive, id, false);
    lemma_dylib_beats_lower(objs, isecs, dylibs, roots, only_alive, syms, id, d);
}

/// A symbol that no file and no library defines stays as it was, but for
/// the marks of its references.
pub proof fn lemma_undefined_stays(
    objs: Seq<ObjectFile>,
    isecs: Seq<InputSection>,
    dylibs: Seq<DylibFile>,
    roots: Seq<u32>,
    only_alive: bool,
    relocatable: bool,
    syms: Seq<Symbol>,
    id: int,
)
    requires
        objs_ok(objs, isecs, syms.len() as int),
        0 <= id < syms.len(),
        forall|o: int, k: int| #[trigger]
            takes_part(objs, only_alive, id, o, k) ==> !is_definition(objs[o].nlists[k]) && (
            objs[o].is_alive ==> !is_tentative(objs[o].nlists[k])),
        relocatable || forall|e: int|
            0 <= e < dylibs.len() ==> !bytes::views((#[trigger] dylibs[e]).exports@).contains(
                syms[id].name@,
            ),
    ensures
        ({
            let s = resolved(objs, isecs, dylibs, roots, only_alive, relocatable, syms).0[id];
            &&& s.defined_by() == syms[id].defined_by()
            &&& s.isec == syms[id].isec
            &&& s.value == syms[id].value
            &&& s.flags.is_common == syms[id].flags.is_common
            &&& s.flags.is_imported == syms[id].flags.is_imported
        }),
{
    let entries = entries_to(objs, only_alive, objs.len() as int);
    let n = entries.len() as int;
    lemma_entries_ok(objs, isecs, only_alive, objs.len() as int, syms.len() as int);
    let best = Seq::new(syms.len(), |i: int| best_rank(entries, i, n));
    let start = Claims { syms, best, dups: Seq::empty() };
    let c = claims_to(objs, isecs, only_alive, entries, start, n);
    assert forall|i: int| 0 <= i < n && (#[trigger] entries[i]).sym == id implies rank_of(
        entries[i],
    ) is None by {
        let (o, k) = lemma_origin(objs, only_alive, objs.len() as int, i);
        assert(takes_part(objs, only_alive, id, o, k));
    }
    lemma_claims_frame(objs, isecs, only_alive, entries, start, n, id);
    if best[id] != u64::MAX {
        let i = lemma_attained(entries, id, n);
        assert(rank_of(entries[i]) is None);
    }
    lemma_not_merged(entries, c.best, c.syms, n, id);
    if !relocatable {
        lemma_no_exporter(dylibs, syms[id].name@, c.best[id], 0);
    }
}

/// True for a live file's tentative definition of symbol `id`.
pub open spec fn proposes(
    objs: Seq<ObjectFile>,
    only_alive: bool,
    id: int,
    o: int,
    k: int,
) -> bool {
    takes_part(objs, only_alive, id, o, k) && objs[o].is_alive && is_tentative(objs[o].nlists[k])
}

/// The alignment of a tentative definition, as a power of two: bits 8 to 11
/// of its description.
pub open spec fn proposed_alignment(n: NList) -> int {
    n.n_desc as int / 256 % 16
}

proof fn lemma_merged(entries: Seq<Entry>, best: Seq<u64>, syms: Seq<Symbol>, n: int, id: int)
    requires
        0 <= n <= entries.len(),
        0 <= id < syms.len(),
        forall|k: int| 0 <= k < entries.len() ==> (#[trigger] entries[k]).sym < syms.len(),
    ensures
        ({
            let m = commons_to(entries, best, syms, n);
            &&& m.len() == syms.len()
            &&& m[id].value >= syms[id].value
            &&& m[id].common_p2align >= syms[id].common_p2align
            &&& forall|k: int|
                0 <= k < n && (#[trigger] entries[k]).sym == id && is_common_claim(entries[k], best)
                    ==> entries[k].nlist.n_value <= m[id].value && proposed_alignment(
                    entries[k].nlist,
                ) <= m[id].common_p2align
            &&& m[id].value == syms[id].value || exists|k: int|
                0 <= k < n && (#[trigger] entries[k]).sym == id && is_common_claim(entries[k], best)
                    && entries[k].nlist.n_value == m[id].value
            &&& m[id].common_p2align == syms[id].common_p2align || exists|k: int|
                0 <= k < n && (#[trigger] entries[k]).sym == id && is_common_claim(entries[k], best)
                    && proposed_alignment(entries[k].nlist) == m[id].common_p2align
        }),
    decreases n,
{
    if n > 0 {
        lemma_merged(entries, best, syms, n - 1, id);
        let e = entries[n - 1];
        assert(e.sym < syms.len());
        let before = commons_to(entries, best, syms, n - 1);
        let m = commons_to(entries, best, syms, n);
        if m[id].value != syms[id].value && m[id].value == before[id].value {
            let k = choose|k: int|
                0 <= k < n - 1 && (#[trigger] entries[k]).sym == id && is_common_claim(
                    entries[k],
                    best,
                ) && entries[k].nlist.n_value == before[id].value;
            assert(entries[k].sym == id);
        }
        if m[id].common_p2align != syms[id].common_p2align && m[id].common_p2align
            == before[id].common_p2align {
            let k = choose|k: int|
                0 <= k < n - 1 && (#[trigger] entries[k]).sym == id && is_common_claim(
                    entries[k],
                    best,
                ) && proposed_alignment(entries[k].nlist) == before[id].common_p2align;
            assert(entries[k].sym == id);
        }
        if e.sym == id && is_common_claim(e, best) {
            assert(entries[n - 1].sym == id);
        }
    }
}

/// A symbol that is only defined tentatively becomes a common symbol with
/// the largest size and the strictest alignment that a live file proposes.
/// The results name files that propose these.
pub proof fn lemma_common_fits_all(
    objs: Seq<ObjectFile>,
    isecs: Seq<InputSection>,
    dylibs: Seq<DylibFile>,
    roots: Seq<u32>,
    only_alive: bool,
    relocatable: bool,
    syms: Seq<Symbol>,
    id: int,
    o: int,
    k: int,
) -> (r: ((int, int), (int, int)))
    requires
        objs_ok(objs, isecs, syms.len() as int),
        0 <= id < syms.len(),
        proposes(objs, only_alive, id, o, k),
        forall|p: int, j: int| !(#[trigger] defines(objs, only_alive, id, p, j)),
        relocatable || forall|e: int|
            0 <= e < dylibs.len() ==> !bytes::views((#[trigger] dylibs[e]).exports@).contains(
                syms[id].name@,
            ),
    ensures
        ({
            let s = resolved(objs, isecs, dylibs, roots, only_alive, relocatable, syms).0[id];
            let ((a, b), (c, d)) = r;
            &&& s.flags.is_common
            &&& s.defined_by() == Origin::Undef
            &&& forall|p: int, j: int| #[trigger]
                proposes(objs, only_alive, id, p, j) ==> objs[p].nlists[j].n_value <= s.value
                    && proposed_alignment(objs[p].nlists[j]) <= s.common_p2align
            &&& proposes(objs, only_alive, id, a, b) && objs[a].nlists[b].n_value == s.value
            &&& proposes(objs, only_alive, id, c, d) && proposed_alignment(objs[c].nlists[d])
                == s.common_p2align
        }),
{
    let entries = entries_to(objs, only_alive, objs.len() as int);
    let n = entries.len() as int;
    lemma_entries_ok(objs, isecs, only_alive, objs.len() as int, syms.len() as int);
    let best = Seq::new(syms.len(), |i: int| best_rank(entries, i, n));
    let start = Claims { syms, best, dups: Seq::empty() };
    let c = claims_to(objs, isecs, only_alive, entries, start, n);
    lemma_listed(objs, only_alive, objs.len() as int, o, k);
    let at = entries.index_of(entry_of(objs, o, k));
    assert(entries[at] == entry_of(objs, o, k));
    lemma_tentative(objs, only_alive, id, at);
    lemma_best_rank(entries, id, n, at);
    assert forall|i: int|
        0 <= i < n && (#[trigger] entries[i]).sym == id && rank_of(entries[i]) == Some(best[id])
            && entries[i].nlist.n_type & 0x0e == 0x0e implies place_of(objs, isecs, entries[i])
        is Some by {
        lemma_tentative(objs, only_alive, id, i);
    }
    lemma_claims(objs, isecs, only_alive, entries, start, n, id);
    let first = lemma_attained(entries, id, n);
    assert(entries[first].sym == id);
    lemma_tentative(objs, only_alive, id, first);
    let (i, t) = choose|i: int, s: Symbol|
        0 <= i < n && (#[trigger] entries[i]).sym == id && rank_of(entries[i]) == Some(best[id])
            && c.syms[id] == (#[trigger] claimed_symbol(
            s,
            entries[i],
            place_of(objs, isecs, entries[i]),
        )).0 && s.name == syms[id].name && s.flags.is_weak_ref == syms[id].flags.is_weak_ref;
    lemma_tentative(objs, only_alive, id, i);
    lemma_merging_keeps(entries, c.best, c.syms, n, id);
    lemma_merged(entries, c.best, c.syms, n, id);
    if !relocatable {
        lemma_no_exporter(dylibs, syms[id].name@, c.best[id], 0);
    }
    let m = commons_to(entries, c.best, c.syms, n)[id];
    assert(is_common_claim(entries[i], c.best));
    let x = choose|x: int|
        0 <= x < n && (#[trigger] entries[x]).sym == id && is_common_claim(entries[x], c.best)
            && entries[x].nlist.n_value == m.value;
    let y = choose|y: int|
        0 <= y < n && (#[trigger] entries[y]).sym == id && is_common_claim(entries[y], c.best)
            && proposed_alignment(entries[y].nlist) == m.common_p2align;
    assert forall|p: int, j: int| #[trigger] proposes(objs, only_alive, id, p, j) implies
        objs[p].nlists[j].n_value <= m.value && proposed_alignment(objs[p].nlists[j])
        <= m.common_p2align by {
        lemma_listed(objs, only_alive, objs.len() as int, p, j);
        let z = entries.index_of(entry_of(objs, p, j));
        assert(entries[z] == entry_of(objs, p, j));
        assert(entries[z].sym == id);
        assert(is_common_claim(entries[z], c.best));
    }
    assert(entries[i].sym == id);
    let ab = lemma_origin(objs, only_alive, objs.len() as int, x);
    let cd = lemma_origin(objs, only_alive, objs.len() as int, y);
    assert(proposes(objs, only_alive, id, ab.0, ab.1));
    assert(proposes(objs, only_alive, id, cd.0, cd.1));
    (ab, cd)
}

/// Where nothing is defined, what has a rank is a live tentative definition.
proof fn lemma_tentative(objs: Seq<ObjectFile>, only_alive: bool, id: int, i: int)
    requires
        0 <= i < entries_to(objs, only_alive, objs.len() as int).len(),
        entries_to(objs, only_alive, objs.len() as int)[i].sym == id,
        forall|p: int, j: int| !(#[trigger] defines(objs, only_alive, id, p, j)),
    ensures
        ({
            let e = entries_to(objs, only_alive, objs.len() as int)[i];
            &&& e.nlist.n_type & 0x0e != 0x0e
            &&& rank_of(e) is Some <==> e.alive && is_tentative(e.nlist)
            &&& rank_of(e) matches Some(r) ==> 0x3_0000_0000 <= r < 0x4_0000_0000
        }),
{
    let (p, j) = lemma_origin(objs, only_alive, objs.len() as int, i);
    assert(!defines(objs, only_alive, id, p, j));
}

/// True when an object's entry asks for a symbol that another object owns.
pub open spec fn asks_for(
    objs: Seq<ObjectFile>,
    syms: Seq<Symbol>,
    a: int,
    k: int,
    b: int,
) -> bool {
    &&& 0 <= k < objs[a].nlists.len()
    &&& is_visible(objs[a].nlists[k])
    &&& objs[a].nlists[k].n_type & 0x0e == 0
    &&& syms[objs[a].syms[k] as int].defined_by() == Origin::Obj(b as u32)
}

proof fn lemma_needs(objs: Seq<ObjectFile>, syms: Seq<Symbol>, a: int, n: int, b: usize)
    requires
        0 <= n <= objs[a].nlists.len(),
        b < objs.len() < u32::MAX,
    ensures
        needs(objs, syms, a, n).contains(b) <==> exists|k: int|
            k < n && #[trigger] asks_for(objs, syms, a, k, b as int),
    decreases n,
{
    if n > 0 {
        lemma_needs(objs, syms, a, n - 1, b);
        let before = needs(objs, syms, a, n - 1);
        let all = needs(objs, syms, a, n);
        if before.contains(b) {
            let i = before.index_of(b);
            assert(all[i] == b);
        }
        if asks_for(objs, syms, a, n - 1, b as int) {
            assert(all[before.len() as int] == b);
        }
        if all.contains(b) && !before.contains(b) {
            let i = all.index_of(b);
            if i < before.len() {
                assert(before[i] == b);
            }
            assert(asks_for(objs, syms, a, n - 1, b as int));
        }
    }
}

proof fn lemma_alive_to(objs: Seq<ObjectFile>, n: int, b: usize)
    requires
        0 <= n <= objs.len() < u32::MAX,
    ensures
        alive_to(objs, n).contains(b) <==> b < n && objs[b as int].is_alive,
    decreases n,
{
    if n > 0 {
        lemma_alive_to(objs, n - 1, b);
        let before = alive_to(objs, n - 1);
        let all = alive_to(objs, n);
        if before.contains(b) {
            let i = before.index_of(b);
            assert(all[i] == b);
        }
        if b == n - 1 && objs[n - 1].is_alive {
            assert(all[before.len() as int] == b);
        }
        if all.contains(b) && !before.contains(b) {
            let i = all.index_of(b);
            if i < before.len() {
                assert(before[i] == b);
            }
        }
    }
}

proof fn lemma_root_owners(syms: Seq<Symbol>, roots: Seq<u32>, nobjs: int, n: int, b: usize)
    requires
        0 <= n <= roots.len(),
        b < nobjs < u32::MAX,
    ensures
        root_owners(syms, roots, nobjs, n).contains(b) <==> exists|k: int|
            0 <= k < n && syms[#[trigger] roots[k] as int].defined_by() == Origin::Obj(b as u32),
    decreases n,
{
    if n > 0 {
        lemma_root_owners(syms, roots, nobjs, n - 1, b);
        let before = root_owners(syms, roots, nobjs, n - 1);
        let all = root_owners(syms, roots, nobjs, n);
        if before.contains(b) {
            let i = before.index_of(b);
            assert(all[i] == b);
        }
        if syms[roots[n - 1] as int].defined_by() == Origin::Obj(b as u32) {
            assert(all[before.len() as int] == b);
        }
        if all.contains(b) && !before.contains(b) {
            let i = all.index_of(b);
            if i < before.len() {
                assert(before[i] == b);
            }
            assert(syms[roots[n - 1] as int].defined_by() == Origin::Obj(b as u32));
        }
    }
}

/// An archive member is loaded exactly for a reason: an object is alive
/// after the walk if it was before, if it owns a symbol that the command
/// line names, or if it owns a symbol that a live object leaves undefined,
/// and only then.
pub proof fn lemma_loaded_for_a_reason(
    objs: Seq<ObjectFile>,
    syms: Seq<Symbol>,
    roots: Seq<u32>,
    b: int,
)
    requires
        objs.len() < u32::MAX,
        0 <= b < objs.len(),
    ensures
        marked_live(objs, syms, roots)[b].is_alive <==> {
            ||| objs[b].is_alive
            ||| exists|k: int|
                0 <= k < roots.len() && syms[#[trigger] roots[k] as int].defined_by()
                    == Origin::Obj(b as u32)
            ||| exists|a: int, k: int|
                0 <= a < objs.len() && marked_live(objs, syms, roots)[a].is_alive && #[trigger]
                asks_for(objs, syms, a, k, b)
        },
{
    let edges = need_lists(objs, syms);
    let starts = live_roots(objs, syms, roots);
    let first = alive_to(objs, objs.len() as int);
    let second = root_owners(syms, roots, objs.len() as int, roots.len() as int);
    let node = b as usize;
    lemma_alive_to(objs, objs.len() as int, node);
    lemma_root_owners(syms, roots, objs.len() as int, roots.len() as int, node);
    if first.contains(node) {
        let i = first.index_of(node);
        assert(starts[i] == node);
        graph::lemma_root_reachable(edges, starts, i);
    }
    if second.contains(node) {
        let i = second.index_of(node);
        assert(starts[first.len() + i] == node);
        graph::lemma_root_reachable(edges, starts, first.len() + i);
    }
    if exists|a: int, k: int|
        0 <= a < objs.len() && marked_live(objs, syms, roots)[a].is_alive && #[trigger] asks_for(
            objs,
            syms,
            a,
            k,
            b,
        ) {
        let (a, k) = choose|a: int, k: int|
            0 <= a < objs.len() && marked_live(objs, syms, roots)[a].is_alive && #[trigger]
            asks_for(objs, syms, a, k, b);
        lemma_needs(objs, syms, a, objs[a].nlists.len() as int, node);
        let i = edges[a].index_of(node);
        assert(edges[a][i] == b);
        assert(graph::has_edge(edges, a, b));
        graph::lemma_edge_reachable(edges, starts, a, b);
    }
    if graph::reachable(edges, starts, b) {
        let path = choose|path: Seq<int>| graph::is_path(edges, starts, path, b);
        if path.len() == 1 {
            let r = choose|r: int| 0 <= r < starts.len() && #[trigger] starts[r] == path[0];
            if r < first.len() {
                assert(first[r] == node);
                assert(first.contains(node));
            } else {
                assert(second[r - first.len()] == node);
                assert(second.contains(node));
            }
        } else {
            let a = path[path.len() - 2];
            assert(graph::has_edge(edges, path[path.len() - 2], path[path.len() - 2 + 1]));
            let before = path.drop_last();
            assert forall|k: int| 0 <= k < before.len() - 1 implies graph::has_edge(
                edges,
                #[trigger] before[k],
                before[k + 1],
            ) by {
                assert(graph::has_edge(edges, path[k], path[k + 1]));
            }
            assert(before[0] == path[0]);
            assert(graph::is_path(edges, starts, before, a));
            let i = choose|i: int| 0 <= i < edges[a].len() && #[trigger] edges[a][i] == b;
            assert(edges[a].contains(node));
            lemma_needs(objs, syms, a, objs[a].nlists.len() as int, node);
            let k = choose|k: int|
                k < objs[a].nlists.len() && #[trigger] asks_for(objs, syms, a, k, b);
            assert(asks_for(objs, syms, a, k, b));
        }
    }
}

} // verus!
