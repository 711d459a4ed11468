//! What dead-stripping keeps: exactly the subsections that a chain of
//! references leads to from something that must stay. Both are stated here
//! on the inputs alone: on flags, relocations and unwind records.
use super::dead_strip::{
    edges_of, init_roots, kept_by, live_edges, live_roots, personality_of, pinned, record_count,
    record_targets, reloc_targets, section_roots, sym_node, symbol_roots, through, with_option,
};
use crate::input_files::UnwindRecord;
use crate::input_sections::RelocTarget;
use crate::inputs::{survivor, Inputs};
use crate::symbol::{Origin, Symbol};
use crate::util::graph;
use vstd::prelude::*;
use vstd::string::*;

verus! {

/// True when the symbol's definition is in the subsection.
pub open spec fn defined_in(s: Symbol, isec: int) -> bool {
    s.isec != u32::MAX && s.isec == isec
}

/// True for a subsection that its section header keeps: initializers,
/// thread-local variables, what is marked against stripping or as support of
/// live code, and the Objective-C image information.
pub open spec fn header_keeps(x: Inputs, isec: int) -> bool {
    let hdr = x.header(x.isecs[isec]);
    let kind = hdr.flags & 0xff;
    &&& x.isecs[isec].is_alive
    &&& {
        ||| kind == 0x9
        ||| kind == 0x16
        ||| kind == 0x13
        ||| hdr.flags & 0x1000_0000 != 0
        ||| hdr.flags & 0x0800_0000 != 0
        ||| hdr.sectname == "__objc_imageinfo".spec_bytes()
    }
}

/// True for a symbol that keeps its definition: one that is marked against
/// stripping, one that an output other than an executable exports, or the
/// entry point of an executable.
pub open spec fn symbol_keeps(x: Inputs, output_type: u32, entry: Option<u32>, k: int) -> bool {
    let s = x.symtab.syms[k];
    ||| s.flags.no_dead_strip
    ||| output_type != 2 && s.flags.is_extern && !s.flags.is_private_extern && s.defined_by()
        != Origin::Undef
    ||| output_type == 2 && entry is Some && entry->0 == k
}

/// True for a subsection that stays even if nothing refers to it.
pub open spec fn must_stay(
    x: Inputs,
    init_funcs: Seq<(usize, u64)>,
    output_type: u32,
    entry: Option<u32>,
    isec: int,
) -> bool {
    ||| 0 <= isec < x.isecs.len() && header_keeps(x, isec)
    ||| exists|k: int| 0 <= k < init_funcs.len() && (#[trigger] init_funcs[k]).0 == isec
    ||| exists|k: int|
        0 <= k < x.symtab.syms.len() && defined_in(#[trigger] x.symtab.syms[k], isec)
            && symbol_keeps(x, output_type, entry, k)
}

/// True when the relocation refers to the subsection: by its number, or by a
/// symbol that is defined there.
pub open spec fn reloc_refers(x: Inputs, from: int, k: int, isec: int) -> bool {
    let s = x.isecs[from];
    match s.relocs[k].refers_to() {
        RelocTarget::Section(i) => i == isec,
        RelocTarget::Sym(i) => defined_in(
            x.symtab.syms[x.objs[s.obj as int].syms[i as int] as int],
            isec,
        ),
    }
}

/// True when the unwind record needs the subsection: it holds the record's
/// language-specific data, that of its FDE, or the personality function,
/// which is the record's own or else that of the FDE's CIE.
pub open spec fn record_refers(x: Inputs, r: UnwindRecord, isec: int) -> bool {
    ||| (r.lsda matches Some(l) && l.0 == isec)
    ||| r.fde is Some && (x.fdes[r.fde->0 as int].lsda matches Some(l) && l.0 == isec)
    ||| r.personality is Some && defined_in(x.symtab.syms[r.personality->0 as int], isec)
    ||| r.personality is None && r.fde is Some
        && x.cies[x.fdes[r.fde->0 as int].cie as int].personality is Some && defined_in(
        x.symtab.syms[x.cies[x.fdes[r.fde->0 as int].cie as int].personality->0 as int],
        isec,
    )
}

/// True when a subsection refers to another one, by a relocation or by one
/// of its unwind records.
pub open spec fn refers(x: Inputs, from: int, isec: int) -> bool {
    let s = x.isecs[from];
    ||| exists|k: int| 0 <= k < s.relocs.len() && #[trigger] reloc_refers(x, from, k, isec)
    ||| s.is_alive && exists|k: int|
        s.unwind_offset <= k < s.unwind_offset + s.nunwind && record_refers(
            x,
            #[trigger] x.unwind_records[k],
            isec,
        )
}

/// True when a subsection refers to a copy of another one.
pub open spec fn leads(x: Inputs, from: int, to: int) -> bool {
    exists|t: int|
        0 <= t < x.isecs.len() && #[trigger] refers(x, from, t) && survivor(x.isecs@, t) == to
}

/// True when a copy of a subsection must stay.
pub open spec fn starts(
    x: Inputs,
    init_funcs: Seq<(usize, u64)>,
    output_type: u32,
    entry: Option<u32>,
    isec: int,
) -> bool {
    exists|t: int|
        0 <= t < x.isecs.len() && #[trigger] must_stay(x, init_funcs, output_type, entry, t)
            && survivor(x.isecs@, t) == isec
}

/// True when references lead along a path from what must stay.
pub open spec fn is_trail(
    x: Inputs,
    init_funcs: Seq<(usize, u64)>,
    output_type: u32,
    entry: Option<u32>,
    path: Seq<int>,
    isec: int,
) -> bool {
    &&& path.len() > 0
    &&& path.last() == isec
    &&& starts(x, init_funcs, output_type, entry, path[0])
    &&& forall|k: int|
        0 <= k < path.len() - 1 ==> 0 <= path[k] < x.isecs.len() && leads(
            x,
            #[trigger] path[k],
            path[k + 1],
        )
}

/// True for a subsection that is needed.
pub open spec fn is_needed(
    x: Inputs,
    init_funcs: Seq<(usize, u64)>,
    output_type: u32,
    entry: Option<u32>,
    isec: int,
) -> bool {
    exists|path: Seq<int>| is_trail(x, init_funcs, output_type, entry, path, isec)
}

proof fn lemma_option_holds(s: Seq<usize>, o: Option<usize>, t: usize)
    ensures
        with_option(s, o).contains(t) <==> s.contains(t) || o == Some(t),
{
    if let Some(i) = o {
        let u = s.push(i);
        if s.contains(t) {
            let k = s.index_of(t);
            assert(u[k] == t);
        }
        if i == t {
            assert(u[s.len() as int] == t);
        }
        if u.contains(t) {
            let k = u.index_of(t);
            assert(u[k] == t);
            if k < s.len() {
                assert(s[k] == t);
            }
        }
    }
}

proof fn lemma_section_roots(x: Inputs, n: int, t: usize)
    requires
        0 <= n <= x.isecs.len(),
        x.isecs.len() <= u32::MAX,
    ensures
        section_roots(x, n).contains(t) <==> t < n && header_keeps(x, t as int),
    decreases n,
{
    if n > 0 {
        lemma_section_roots(x, n - 1, t);
        let before = section_roots(x, n - 1);
        let hdr = x.header(x.isecs[n - 1]);
        assert(pinned(hdr) && x.isecs[n - 1].is_alive <==> header_keeps(x, n - 1));
        if header_keeps(x, n - 1) {
            lemma_option_holds(before, Some((n - 1) as usize), t);
            assert(section_roots(x, n) == with_option(before, Some((n - 1) as usize)));
        }
    }
}

proof fn lemma_symbol_roots(x: Inputs, output_type: u32, n: int, t: usize)
    requires
        0 <= n <= x.symtab.syms.len(),
    ensures
        symbol_roots(x.symtab.syms@, output_type, n).contains(t) <==> exists|k: int|
            0 <= k < n && defined_in(#[trigger] x.symtab.syms[k], t as int) && symbol_keeps(
                x,
                output_type,
                None,
                k,
            ),
    decreases n,
{
    if n > 0 {
        lemma_symbol_roots(x, output_type, n - 1, t);
        let before = symbol_roots(x.symtab.syms@, output_type, n - 1);
        let s = x.symtab.syms[n - 1];
        lemma_option_holds(before, sym_node(s), t);
        assert(sym_node(s) == Some(t) <==> defined_in(s, t as int));
        assert(x.symtab.syms@[n - 1] == s);
    }
}

proof fn lemma_init_roots(init_funcs: Seq<(usize, u64)>, t: usize)
    ensures
        init_roots(init_funcs).contains(t) <==> exists|k: int|
            0 <= k < init_funcs.len() && (#[trigger] init_funcs[k]).0 == t,
{
    let r = init_roots(init_funcs);
    if r.contains(t) {
        let k = r.index_of(t);
        assert(init_funcs[k].0 == t);
    }
    if exists|k: int| 0 <= k < init_funcs.len() && (#[trigger] init_funcs[k]).0 == t {
        let k = choose|k: int| 0 <= k < init_funcs.len() && (#[trigger] init_funcs[k]).0 == t;
        assert(r[k] == t);
    }
}

proof fn lemma_sum_holds(a: Seq<usize>, b: Seq<usize>, t: usize)
    ensures
        (a + b).contains(t) <==> a.contains(t) || b.contains(t),
{
    let s = a + b;
    if a.contains(t) {
        let k = a.index_of(t);
        assert(s[k] == t);
    }
    if b.contains(t) {
        let k = b.index_of(t);
        assert(s[a.len() + k] == t);
    }
    if s.contains(t) {
        let k = s.index_of(t);
        if k < a.len() {
            assert(a[k] == t);
        } else {
            assert(b[k - a.len()] == t);
        }
    }
}

proof fn lemma_roots(
    x: Inputs,
    init_funcs: Seq<(usize, u64)>,
    output_type: u32,
    entry: Option<u32>,
    t: usize,
)
    requires
        x.wf(),
        entry matches Some(id) ==> id < x.symtab.syms.len(),
    ensures
        live_roots(x, init_funcs, output_type, entry).contains(t) <==> must_stay(
            x,
            init_funcs,
            output_type,
            entry,
            t as int,
        ),
{
    let n = x.symtab.syms.len() as int;
    let a = section_roots(x, x.isecs.len() as int);
    let b = init_roots(init_funcs);
    let c = symbol_roots(x.symtab.syms@, output_type, n);
    lemma_section_roots(x, x.isecs.len() as int, t);
    lemma_init_roots(init_funcs, t);
    lemma_symbol_roots(x, output_type, n, t);
    lemma_sum_holds(a, b, t);
    lemma_sum_holds(a + b, c, t);
    let all = a + b + c;
    let by_symbol = exists|k: int|
        0 <= k < n && defined_in(#[trigger] x.symtab.syms[k], t as int) && symbol_keeps(
            x,
            output_type,
            entry,
            k,
        );
    if c.contains(t) {
        let k = choose|k: int|
            0 <= k < n && defined_in(#[trigger] x.symtab.syms[k], t as int) && symbol_keeps(
                x,
                output_type,
                None,
                k,
            );
        assert(defined_in(x.symtab.syms[k], t as int) && symbol_keeps(x, output_type, entry, k));
    }
    match entry {
        Some(id) if output_type == 2 => {
            let s = x.symtab.syms[id as int];
            lemma_option_holds(all, sym_node(s), t);
            assert(sym_node(s) == Some(t) <==> defined_in(s, t as int));
            if defined_in(s, t as int) {
                assert(symbol_keeps(x, output_type, entry, id as int));
                assert(by_symbol);
            }
            if by_symbol {
                let k = choose|k: int|
                    0 <= k < n && defined_in(#[trigger] x.symtab.syms[k], t as int)
                        && symbol_keeps(x, output_type, entry, k);
                assert(defined_in(x.symtab.syms[k], t as int));
                if k != id {
                    assert(symbol_keeps(x, output_type, None, k));
                }
            }
        },
        _ => {
            if by_symbol {
                let k = choose|k: int|
                    0 <= k < n && defined_in(#[trigger] x.symtab.syms[k], t as int)
                        && symbol_keeps(x, output_type, entry, k);
                assert(defined_in(x.symtab.syms[k], t as int) && symbol_keeps(
                    x,
                    output_type,
                    None,
                    k,
                ));
            }
        },
    }
}

proof fn lemma_reloc_targets(x: Inputs, id: int, n: int, t: usize)
    requires
        0 <= n <= x.isecs[id].relocs.len(),
    ensures
        reloc_targets(x, id, n).contains(t) <==> exists|k: int|
            0 <= k < n && #[trigger] reloc_refers(x, id, k, t as int),
    decreases n,
{
    if n > 0 {
        lemma_reloc_targets(x, id, n - 1, t);
        let s = x.isecs[id];
        let o = match x.target_isec(s.obj, s.relocs[n - 1]) {
            Some(i) => Some(i as usize),
            None => None,
        };
        lemma_option_holds(reloc_targets(x, id, n - 1), o, t);
        assert(o == Some(t) <==> reloc_refers(x, id, n - 1, t as int));
    }
}

proof fn lemma_record_targets(x: Inputs, r: UnwindRecord, acc: Seq<usize>, t: usize)
    ensures
        record_targets(x, r, acc).contains(t) <==> acc.contains(t) || record_refers(
            x,
            r,
            t as int,
        ),
{
    let o = match r.lsda {
        Some(l) => Some(l.0),
        None => None,
    };
    let a = with_option(acc, o);
    lemma_option_holds(acc, o, t);
    let p = match r.fde {
        Some(f) => match x.fdes[f as int].lsda {
            Some(l) => Some(l.0),
            None => None,
        },
        None => None,
    };
    let b = with_option(a, p);
    lemma_option_holds(a, p, t);
    let q = match personality_of(x, r) {
        Some(p) => sym_node(x.symtab.syms[p as int]),
        None => None,
    };
    lemma_option_holds(b, q, t);
    assert(record_targets(x, r, acc) == with_option(b, q));
}

proof fn lemma_kept_by(x: Inputs, id: int, n: int, t: usize)
    requires
        0 <= n,
    ensures
        kept_by(x, id, n).contains(t) <==> {
            ||| exists|k: int|
                0 <= k < x.isecs[id].relocs.len() && #[trigger] reloc_refers(x, id, k, t as int)
            ||| exists|k: int|
                x.isecs[id].unwind_offset <= k < x.isecs[id].unwind_offset + n && record_refers(
                    x,
                    #[trigger] x.unwind_records[k],
                    t as int,
                )
        },
    decreases n,
{
    let s = x.isecs[id];
    if n == 0 {
        lemma_reloc_targets(x, id, s.relocs.len() as int, t);
    } else {
        lemma_kept_by(x, id, n - 1, t);
        let last = s.unwind_offset + n - 1;
        lemma_record_targets(x, x.unwind_records[last], kept_by(x, id, n - 1), t);
    }
}

proof fn lemma_edges(x: Inputs, id: int, t: usize)
    ensures
        edges_of(x, id).contains(t) <==> refers(x, id, t as int),
{
    lemma_kept_by(x, id, record_count(x.isecs[id]), t);
}

proof fn lemma_leads(x: Inputs, a: int, b: int)
    requires
        x.wf(),
        x.fdes_exist(),
        0 <= a < x.isecs.len(),
    ensures
        graph::has_edge(live_edges(x), a, b) <==> leads(x, a, b),
{
    crate::inputs::lemma_wf_redirects(x);
    let nodes = edges_of(x, a);
    let list = live_edges(x)[a];
    assert(list == through(x, nodes));
    if graph::has_edge(live_edges(x), a, b) {
        let k = choose|k: int| 0 <= k < list.len() && #[trigger] list[k] == b;
        let t = nodes[k];
        lemma_edges(x, a, t);
        assert(nodes.contains(t));
        lemma_refers_exist(x, a, t as int);
        crate::inputs::lemma_follow_exists(x.isecs@, t as int, x.isecs.len() as nat);
        assert(refers(x, a, t as int) && survivor(x.isecs@, t as int) == b);
    }
    if leads(x, a, b) {
        let t = choose|t: int|
            0 <= t < x.isecs.len() && #[trigger] refers(x, a, t) && survivor(x.isecs@, t) == b;
        lemma_edges(x, a, t as usize);
        let k = nodes.index_of(t as usize);
        crate::inputs::lemma_follow_exists(x.isecs@, t, x.isecs.len() as nat);
        assert(list[k] == b);
    }
}

proof fn lemma_refers_exist(x: Inputs, a: int, t: int)
    requires
        x.wf(),
        x.fdes_exist(),
        0 <= a < x.isecs.len(),
        refers(x, a, t),
    ensures
        0 <= t < x.isecs.len(),
{
    let s = x.isecs[a];
    assert(x.isec_ok(s));
    if exists|k: int| 0 <= k < s.relocs.len() && #[trigger] reloc_refers(x, a, k, t) {
        let k = choose|k: int| 0 <= k < s.relocs.len() && #[trigger] reloc_refers(x, a, k, t);
        assert(x.reloc_ok(s.obj, s.relocs[k]));
        match s.relocs[k].refers_to() {
            RelocTarget::Section(_) => {},
            RelocTarget::Sym(i) => {
                assert(x.obj_ok(x.objs[s.obj as int]));
                let id = x.objs[s.obj as int].syms[i as int];
                assert(x.sym_ok(x.symtab.syms[id as int]));
            },
        }
    } else {
        let k = choose|k: int|
            s.unwind_offset <= k < s.unwind_offset + s.nunwind && record_refers(
                x,
                #[trigger] x.unwind_records[k],
                t,
            );
        assert(x.range_ok(a));
        let r = x.unwind_records[k];
        assert(x.record_ok(r));
        if let Some(p) = r.personality {
            assert(x.sym_ok(x.symtab.syms[p as int]));
        }
        if let Some(f) = r.fde {
            assert(x.fde_ok(x.fdes[f as int]));
            let c = x.cies[x.fdes[f as int].cie as int];
            assert(x.cie_ok(c));
            if let Some(p) = c.personality {
                assert(x.sym_ok(x.symtab.syms[p as int]));
            }
        }
    }
}

proof fn lemma_starts(
    x: Inputs,
    init_funcs: Seq<(usize, u64)>,
    output_type: u32,
    entry: Option<u32>,
    b: int,
)
    requires
        x.wf(),
        forall|k: int| 0 <= k < init_funcs.len() ==> (#[trigger] init_funcs[k]).0 < x.isecs.len(),
        entry matches Some(id) ==> id < x.symtab.syms.len(),
    ensures
        ({
            let roots = through(x, live_roots(x, init_funcs, output_type, entry));
            (exists|r: int| 0 <= r < roots.len() && #[trigger] roots[r] == b) <==> starts(
                x,
                init_funcs,
                output_type,
                entry,
                b,
            )
        }),
{
    crate::inputs::lemma_wf_redirects(x);
    let nodes = live_roots(x, init_funcs, output_type, entry);
    let roots = through(x, nodes);
    if exists|r: int| 0 <= r < roots.len() && #[trigger] roots[r] == b {
        let r = choose|r: int| 0 <= r < roots.len() && #[trigger] roots[r] == b;
        let t = nodes[r];
        lemma_roots(x, init_funcs, output_type, entry, t);
        assert(nodes.contains(t));
        assert(t < x.isecs.len()) by {
            if exists|k: int|
                0 <= k < x.symtab.syms.len() && defined_in(#[trigger] x.symtab.syms[k], t as int)
                    && symbol_keeps(x, output_type, entry, k) {
                let k = choose|k: int|
                    0 <= k < x.symtab.syms.len() && defined_in(
                        #[trigger] x.symtab.syms[k],
                        t as int,
                    ) && symbol_keeps(x, output_type, entry, k);
                assert(x.sym_ok(x.symtab.syms[k]));
            }
        }
        crate::inputs::lemma_follow_exists(x.isecs@, t as int, x.isecs.len() as nat);
        assert(must_stay(x, init_funcs, output_type, entry, t as int));
    }
    if starts(x, init_funcs, output_type, entry, b) {
        let t = choose|t: int|
            0 <= t < x.isecs.len() && #[trigger] must_stay(x, init_funcs, output_type, entry, t)
                && survivor(x.isecs@, t) == b;
        lemma_roots(x, init_funcs, output_type, entry, t as usize);
        let k = nodes.index_of(t as usize);
        crate::inputs::lemma_follow_exists(x.isecs@, t, x.isecs.len() as nat);
        assert(roots[k] == b);
    }
}

/// The walk reaches exactly what is needed.
pub proof fn lemma_reached_is_needed(
    x: Inputs,
    init_funcs: Seq<(usize, u64)>,
    output_type: u32,
    entry: Option<u32>,
    isec: int,
)
    requires
        x.wf(),
        x.fdes_exist(),
        forall|k: int| 0 <= k < init_funcs.len() ==> (#[trigger] init_funcs[k]).0 < x.isecs.len(),
        entry matches Some(id) ==> id < x.symtab.syms.len(),
    ensures
        graph::reachable(
            live_edges(x),
            through(x, live_roots(x, init_funcs, output_type, entry)),
            isec,
        ) <==> is_needed(x, init_funcs, output_type, entry, isec),
{
    let edges = live_edges(x);
    let roots = through(x, live_roots(x, init_funcs, output_type, entry));
    if graph::reachable(edges, roots, isec) {
        let path = choose|path: Seq<int>| graph::is_path(edges, roots, path, isec);
        lemma_starts(x, init_funcs, output_type, entry, path[0]);
        assert forall|k: int| 0 <= k < path.len() - 1 implies 0 <= path[k] < x.isecs.len() && leads(
            x,
            #[trigger] path[k],
            path[k + 1],
        ) by {
            assert(graph::has_edge(edges, path[k], path[k + 1]));
            lemma_leads(x, path[k], path[k + 1]);
        }
        assert(is_trail(x, init_funcs, output_type, entry, path, isec));
    }
    if is_needed(x, init_funcs, output_type, entry, isec) {
        let path = choose|path: Seq<int>|
            is_trail(x, init_funcs, output_type, entry, path, isec);
        lemma_starts(x, init_funcs, output_type, entry, path[0]);
        assert forall|k: int| 0 <= k < path.len() - 1 implies graph::has_edge(
            edges,
            #[trigger] path[k],
            path[k + 1],
        ) by {
            assert(leads(x, path[k], path[k + 1]));
            lemma_leads(x, path[k], path[k + 1]);
        }
        assert(graph::is_path(edges, roots, path, isec));
    }
}

/// What must stay is needed, and so is its surviving copy.
pub proof fn lemma_stays(
    x: Inputs,
    init_funcs: Seq<(usize, u64)>,
    output_type: u32,
    entry: Option<u32>,
    isec: int,
)
    requires
        0 <= isec < x.isecs.len(),
        must_stay(x, init_funcs, output_type, entry, isec),
    ensures
        is_needed(x, init_funcs, output_type, entry, survivor(x.isecs@, isec)),
{
    let to = survivor(x.isecs@, isec);
    let path = seq![to];
    assert(starts(x, init_funcs, output_type, entry, to));
    assert(is_trail(x, init_funcs, output_type, entry, path, to));
}

/// In an output other than an executable, the subsection of every exported
/// definition is needed.
pub proof fn lemma_exports_stay(
    x: Inputs,
    init_funcs: Seq<(usize, u64)>,
    output_type: u32,
    entry: Option<u32>,
    k: int,
)
    requires
        x.wf(),
        output_type != 2,
        0 <= k < x.symtab.syms.len(),
        x.symtab.syms[k].flags.is_extern,
        !x.symtab.syms[k].flags.is_private_extern,
        x.symtab.syms[k].defined_by() != Origin::Undef,
        x.symtab.syms[k].isec != u32::MAX,
    ensures
        x.symtab.syms[k].isec < x.isecs.len(),
        is_needed(
            x,
            init_funcs,
            output_type,
            entry,
            survivor(x.isecs@, x.symtab.syms[k].isec as int),
        ),
{
    let s = x.symtab.syms[k];
    assert(x.sym_ok(s));
    assert(defined_in(x.symtab.syms[k], s.isec as int) && symbol_keeps(x, output_type, entry, k));
    assert(must_stay(x, init_funcs, output_type, entry, s.isec as int));
    lemma_stays(x, init_funcs, output_type, entry, s.isec as int);
}

/// What a needed subsection refers to is needed.
pub proof fn lemma_references_stay(
    x: Inputs,
    init_funcs: Seq<(usize, u64)>,
    output_type: u32,
    entry: Option<u32>,
    from: int,
    isec: int,
)
    requires
        0 <= from < x.isecs.len(),
        0 <= isec < x.isecs.len(),
        is_needed(x, init_funcs, output_type, entry, from),
        refers(x, from, isec),
    ensures
        is_needed(x, init_funcs, output_type, entry, survivor(x.isecs@, isec)),
{
    let path = choose|path: Seq<int>| is_trail(x, init_funcs, output_type, entry, path, from);
    let to = survivor(x.isecs@, isec);
    let next = path.push(to);
    assert(next[0] == path[0]);
    assert(leads(x, from, to));
    assert forall|k: int| 0 <= k < next.len() - 1 implies 0 <= next[k] < x.isecs.len() && leads(
        x,
        #[trigger] next[k],
        next[k + 1],
    ) by {
        if k < path.len() - 1 {
            assert(leads(x, path[k], path[k + 1]));
        }
    }
    assert(is_trail(x, init_funcs, output_type, entry, next, to));
}

} // verus!
