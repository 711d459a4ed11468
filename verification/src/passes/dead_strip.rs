//! Dead-stripping.
//!
//! Subsections not reachable from the roots - the entry point, exported
//! symbols (for a dylib), initializers and everything the format pins - are
//! removed. Reachability follows relocations and unwind-info edges, so that
//! a live function keeps its LSDA and personality.
use super::strip_laws;
use crate::input_files::{Fde, UnwindRecord};
use crate::input_sections::{InputSection, Reloc};
use crate::inputs::{list_survivors, Inputs};
use crate::macho::consts::{
    MH_EXECUTE, S_ATTR_LIVE_SUPPORT, S_ATTR_NO_DEAD_STRIP, S_INIT_FUNC_OFFSETS,
    S_MOD_INIT_FUNC_POINTERS, S_THREAD_LOCAL_VARIABLES,
};
use crate::macho::{MachSection, SectionView};
use crate::symbol::{Origin, Symbol};
use crate::util::bytes;
use crate::util::graph;
use crate::util::lists;
use vstd::prelude::*;
use vstd::string::*;

verus! {

/// Adds an element if there is one.
pub open spec fn with_option(s: Seq<usize>, o: Option<usize>) -> Seq<usize> {
    match o {
        Some(x) => s.push(x),
        None => s,
    }
}

/// A symbol's subsection as a node.
pub open spec fn sym_node(s: Symbol) -> Option<usize> {
    match s.section() {
        Some(i) => Some(i as usize),
        None => None,
    }
}

/// The subsections that the first `k` relocations of a subsection refer to.
pub open spec fn reloc_targets(x: Inputs, id: int, k: int) -> Seq<usize>
    decreases k,
{
    if k <= 0 {
        Seq::empty()
    } else {
        let s = x.isecs[id];
        with_option(
            reloc_targets(x, id, k - 1),
            match x.target_isec(s.obj, s.relocs[k - 1]) {
                Some(t) => Some(t as usize),
                None => None,
            },
        )
    }
}

/// The personality routine of an unwind record: its own, or that of its
/// FDE's CIE.
pub open spec fn personality_of(x: Inputs, r: UnwindRecord) -> Option<u32> {
    match (r.personality, r.fde) {
        (Some(p), _) => Some(p),
        (None, Some(f)) => x.cies[x.fdes[f as int].cie as int].personality,
        (None, None) => None,
    }
}

/// The subsections that an unwind record keeps alive with its function.
pub open spec fn record_targets(x: Inputs, r: UnwindRecord, acc: Seq<usize>) -> Seq<usize> {
    let a = with_option(
        acc,
        match r.lsda {
            Some(l) => Some(l.0),
            None => None,
        },
    );
    let b = with_option(
        a,
        match r.fde {
            Some(f) => match x.fdes[f as int].lsda {
                Some(l) => Some(l.0),
                None => None,
            },
            None => None,
        },
    );
    with_option(
        b,
        match personality_of(x, r) {
            Some(p) => sym_node(x.symtab.syms[p as int]),
            None => None,
        },
    )
}

/// The subsections that a subsection's relocations and its first `k` unwind
/// records keep alive.
pub open spec fn kept_by(x: Inputs, id: int, k: int) -> Seq<usize>
    decreases k,
{
    let s = x.isecs[id];
    if k <= 0 {
        reloc_targets(x, id, s.relocs.len() as int)
    } else {
        record_targets(
            x,
            x.unwind_records[s.unwind_offset + k - 1],
            kept_by(x, id, k - 1),
        )
    }
}

/// The number of a subsection's unwind records; a dead one has none.
pub open spec fn record_count(s: InputSection) -> int {
    if s.is_alive {
        s.nunwind as int
    } else {
        0
    }
}

/// Everything that a subsection keeps alive.
pub open spec fn edges_of(x: Inputs, id: int) -> Seq<usize> {
    kept_by(x, id, record_count(x.isecs[id]))
}

/// Nodes with merged copies replaced by their survivors.
pub open spec fn through(x: Inputs, nodes: Seq<usize>) -> Seq<usize> {
    nodes.map_values(|n: usize| crate::inputs::survivor(x.isecs@, n as int) as usize)
}

/// The liveness graph.
pub open spec fn live_edges(x: Inputs) -> Seq<Seq<usize>> {
    Seq::new(x.isecs@.len(), |i: int| through(x, edges_of(x, i)))
}

fn push_option(out: &mut Vec<usize>, o: Option<usize>, survivors: &Vec<usize>, Ghost(x): Ghost<
    Inputs,
>, Ghost(acc): Ghost<Seq<usize>>)
    requires
        old(out)@ == through(x, acc),
        forall|k: int| 0 <= k < old(out).len() ==> (#[trigger] old(out)[k]) < x.isecs.len(),
        survivors.len() == x.isecs.len(),
        forall|i: int|
            0 <= i < survivors.len() ==> #[trigger] survivors[i] == crate::inputs::survivor(
                x.isecs@,
                i,
            ) && survivors[i] < x.isecs.len(),
        o matches Some(i) ==> i < x.isecs.len(),
    ensures
        final(out)@ == through(x, with_option(acc, o)),
        forall|k: int| 0 <= k < final(out).len() ==> (#[trigger] final(out)[k]) < x.isecs.len(),
{
    match o {
        Some(i) => {
            assert(survivors[i as int] == crate::inputs::survivor(x.isecs@, i as int));
            out.push(survivors[i]);
            assert(out@ =~= through(x, acc.push(i)));
        },
        None => {},
    }
}

fn list_edges(x: &Inputs, id: usize, survivors: &Vec<usize>) -> (r: Vec<usize>)
    requires
        x.wf(),
        x.fdes_exist(),
        id < x.isecs.len(),
        survivors.len() == x.isecs.len(),
        forall|i: int|
            0 <= i < survivors.len() ==> #[trigger] survivors[i] == crate::inputs::survivor(
                x.isecs@,
                i,
            ) && survivors[i] < x.isecs.len(),
    ensures
        r@ == through(*x, edges_of(*x, id as int)),
        forall|k: int| 0 <= k < r.len() ==> (#[trigger] r[k]) < x.isecs.len(),
{
    proof {
        assert(x.isec_ok(x.isecs[id as int]));
    }
    let mut out: Vec<usize> = Vec::new();
    assert(out@ =~= through(*x, Seq::empty()));
    let s: &InputSection = &x.isecs[id];
    let mut k: usize = 0;
    while k < s.relocs.len()
        invariant
            x.wf(),
            x.isec_ok(*s),
            id < x.isecs.len(),
            *s == x.isecs[id as int],
            k <= s.relocs.len(),
            survivors.len() == x.isecs.len(),
            forall|i: int|
                0 <= i < survivors.len() ==> #[trigger] survivors[i] == crate::inputs::survivor(
                    x.isecs@,
                    i,
                ) && survivors[i] < x.isecs.len(),
            out@ == through(*x, reloc_targets(*x, id as int, k as int)),
            forall|k: int| 0 <= k < out.len() ==> (#[trigger] out[k]) < x.isecs.len(),
        decreases s.relocs.len() - k,
    {
        let rel: Reloc = s.relocs[k];
        proof {
            assert(x.reloc_ok(s.obj, s.relocs[k as int]));
        }
        let t: Option<usize> = match x.reloc_target_isec(s.obj, &rel) {
            Some(t) => Some(t as usize),
            None => None,
        };
        push_option(
            &mut out,
            t,
            survivors,
            Ghost(*x),
            Ghost(reloc_targets(*x, id as int, k as int)),
        );
        k += 1;
    }
    let first: usize = s.unwind_offset as usize;
    let n: usize = if s.is_alive {
        s.nunwind as usize
    } else {
        0
    };
    proof {
        assert(x.range_ok(id as int));
    }
    let mut k: usize = 0;
    while k < n
        invariant
            x.wf(),
            x.fdes_exist(),
            x.isec_ok(*s),
            id < x.isecs.len(),
            *s == x.isecs[id as int],
            first == s.unwind_offset,
            n == record_count(*s),
            x.range_ok(id as int),
            k <= n,
            survivors.len() == x.isecs.len(),
            forall|i: int|
                0 <= i < survivors.len() ==> #[trigger] survivors[i] == crate::inputs::survivor(
                    x.isecs@,
                    i,
                ) && survivors[i] < x.isecs.len(),
            out@ == through(*x, kept_by(*x, id as int, k as int)),
            forall|k: int| 0 <= k < out.len() ==> (#[trigger] out[k]) < x.isecs.len(),
        decreases n - k,
    {
        let rec: UnwindRecord = x.unwind_records[first + k];
        let ghost acc = kept_by(*x, id as int, k as int);
        proof {
            assert(x.record_ok(x.unwind_records[first + k]));
        }
        let lsda: Option<usize> = match rec.lsda {
            Some(l) => Some(l.0),
            None => None,
        };
        push_option(&mut out, lsda, survivors, Ghost(*x), Ghost(acc));
        let mut personality: Option<u32> = rec.personality;
        let mut fde_lsda: Option<usize> = None;
        if let Some(f) = rec.fde {
            proof {
                assert(x.fde_ok(x.fdes[f as int]));
            }
            fde_lsda = match x.fdes[f].lsda {
                Some(l) => Some(l.0),
                None => None,
            };
            if personality.is_none() {
                let c: usize = x.fdes[f].cie;
                proof {
                    assert(x.cie_ok(x.cies[c as int]));
                }
                personality = x.cies[c].personality;
            }
        }
        let ghost acc = with_option(acc, lsda);
        push_option(&mut out, fde_lsda, survivors, Ghost(*x), Ghost(acc));
        let ghost acc = with_option(acc, fde_lsda);
        let mut routine: Option<usize> = None;
        if let Some(p) = personality {
            proof {
                assert(x.sym_ok(x.symtab.syms[p as int]));
            }
            routine = match x.symtab.syms[p as usize].isec() {
                Some(i) => Some(i as usize),
                None => None,
            };
        }
        push_option(&mut out, routine, survivors, Ghost(*x), Ghost(acc));
        k += 1;
    }
    out
}

/// True for a section that stays whether or not something refers to it.
pub open spec fn pinned(hdr: SectionView) -> bool {
    ||| hdr.kind() == S_MOD_INIT_FUNC_POINTERS
    ||| hdr.kind() == S_INIT_FUNC_OFFSETS
    ||| hdr.kind() == S_THREAD_LOCAL_VARIABLES
    ||| hdr.flags & S_ATTR_NO_DEAD_STRIP != 0
    ||| hdr.flags & S_ATTR_LIVE_SUPPORT != 0
    ||| hdr.sectname == "__objc_imageinfo".spec_bytes()
}

fn is_pinned(hdr: &MachSection) -> (r: bool)
    ensures
        r == pinned(hdr@),
{
    let kind: u32 = hdr.section_type();
    kind == S_MOD_INIT_FUNC_POINTERS || kind == S_INIT_FUNC_OFFSETS || kind
        == S_THREAD_LOCAL_VARIABLES || hdr.flags & S_ATTR_NO_DEAD_STRIP != 0 || hdr.flags
        & S_ATTR_LIVE_SUPPORT != 0 || bytes::same(
        hdr.sectname.as_slice(),
        "__objc_imageinfo".as_bytes(),
    )
}

/// The live subsections among the first `n` that stay in any case.
pub open spec fn section_roots(x: Inputs, n: int) -> Seq<usize>
    decreases n,
{
    if n <= 0 {
        Seq::empty()
    } else if x.isecs[n - 1].is_alive && pinned(x.header(x.isecs[n - 1])) {
        section_roots(x, n - 1).push((n - 1) as usize)
    } else {
        section_roots(x, n - 1)
    }
}

/// True for a symbol that keeps its definition alive: one that must not be
/// stripped, or an export of an output that is no executable.
pub open spec fn is_root_sym(s: Symbol, output_type: u32) -> bool {
    s.flags.no_dead_strip || (output_type != MH_EXECUTE && s.flags.is_extern
        && !s.flags.is_private_extern && s.has_definition())
}

/// The subsections that the first `n` symbols keep alive.
pub open spec fn symbol_roots(syms: Seq<Symbol>, output_type: u32, n: int) -> Seq<usize>
    decreases n,
{
    if n <= 0 {
        Seq::empty()
    } else if is_root_sym(syms[n - 1], output_type) {
        with_option(symbol_roots(syms, output_type, n - 1), sym_node(syms[n - 1]))
    } else {
        symbol_roots(syms, output_type, n - 1)
    }
}

/// The nodes of the first `n` initializers.
pub open spec fn init_roots(init_funcs: Seq<(usize, u64)>) -> Seq<usize> {
    init_funcs.map_values(|f: (usize, u64)| f.0)
}

/// The subsections from which liveness starts.
pub open spec fn live_roots(
    x: Inputs,
    init_funcs: Seq<(usize, u64)>,
    output_type: u32,
    entry: Option<u32>,
) -> Seq<usize> {
    let all = section_roots(x, x.isecs.len() as int) + init_roots(init_funcs) + symbol_roots(
        x.symtab.syms@,
        output_type,
        x.symtab.syms.len() as int,
    );
    match entry {
        Some(id) if output_type == MH_EXECUTE => with_option(
            all,
            sym_node(x.symtab.syms[id as int]),
        ),
        _ => all,
    }
}

fn list_roots(
    x: &Inputs,
    init_funcs: &Vec<(usize, u64)>,
    output_type: u32,
    entry: Option<u32>,
) -> (r: Vec<usize>)
    requires
        x.wf(),
        forall|k: int| 0 <= k < init_funcs.len() ==> (#[trigger] init_funcs[k]).0 < x.isecs.len(),
        entry matches Some(id) ==> id < x.symtab.syms.len(),
    ensures
        r@ == live_roots(*x, init_funcs@, output_type, entry),
        forall|k: int| 0 <= k < r.len() ==> (#[trigger] r[k]) < x.isecs.len(),
{
    let mut out: Vec<usize> = Vec::new();
    let mut i: usize = 0;
    while i < x.isecs.len()
        invariant
            x.wf(),
            i <= x.isecs.len(),
            out@ == section_roots(*x, i as int),
            forall|k: int| 0 <= k < out.len() ==> (#[trigger] out[k]) < x.isecs.len(),
        decreases x.isecs.len() - i,
    {
        if x.isecs[i].is_alive && is_pinned(x.hdr_of(i)) {
            out.push(i);
        }
        i += 1;
    }
    let ghost first = out@;
    let mut i: usize = 0;
    assert(first + init_roots(init_funcs@).take(0) =~= first);
    while i < init_funcs.len()
        invariant
            i <= init_funcs.len(),
            out@ == first + init_roots(init_funcs@).take(i as int),
            forall|k: int|
                0 <= k < init_funcs.len() ==> (#[trigger] init_funcs[k]).0 < x.isecs.len(),
            forall|k: int| 0 <= k < out.len() ==> (#[trigger] out[k]) < x.isecs.len(),
        decreases init_funcs.len() - i,
    {
        let f: (usize, u64) = init_funcs[i];
        out.push(f.0);
        assert(out@ =~= first + init_roots(init_funcs@).take(i + 1));
        i += 1;
    }
    assert(init_roots(init_funcs@).take(init_funcs.len() as int) =~= init_roots(init_funcs@));
    let ghost second = out@;
    let mut i: usize = 0;
    assert(second + symbol_roots(x.symtab.syms@, output_type, 0) =~= second);
    while i < x.symtab.syms.len()
        invariant
            x.wf(),
            i <= x.symtab.syms.len(),
            out@ == second + symbol_roots(x.symtab.syms@, output_type, i as int),
            forall|k: int| 0 <= k < out.len() ==> (#[trigger] out[k]) < x.isecs.len(),
        decreases x.symtab.syms.len() - i,
    {
        let s: &Symbol = &x.symtab.syms[i];
        proof {
            assert(x.sym_ok(x.symtab.syms[i as int]));
        }
        if s.flags.no_dead_strip || (output_type != MH_EXECUTE && s.flags.is_extern
            && !s.flags.is_private_extern && s.is_defined()) {
            if let Some(t) = s.isec() {
                out.push(t as usize);
            }
        }
        i += 1;
        assert(out@ =~= second + symbol_roots(x.symtab.syms@, output_type, i as int));
    }
    if output_type == MH_EXECUTE {
        if let Some(id) = entry {
            proof {
                assert(x.sym_ok(x.symtab.syms[id as int]));
            }
            if let Some(t) = x.symtab.syms[id as usize].isec() {
                out.push(t as usize);
            }
        }
    }
    out
}

/// Walks from the roots over everything that they keep alive.
pub fn find_live(
    x: &Inputs,
    init_funcs: &Vec<(usize, u64)>,
    output_type: u32,
    entry: Option<u32>,
) -> (w: graph::Walk)
    requires
        x.wf(),
        x.fdes_exist(),
        forall|k: int| 0 <= k < init_funcs.len() ==> (#[trigger] init_funcs[k]).0 < x.isecs.len(),
        entry matches Some(id) ==> id < x.symtab.syms.len(),
    ensures
        ({
            let roots = through(*x, live_roots(*x, init_funcs@, output_type, entry));
            &&& w.live.len() == x.isecs.len()
            &&& forall|i: int|
                0 <= i < x.isecs.len() ==> #[trigger] w.live[i] == graph::reachable(
                    live_edges(*x),
                    roots,
                    i,
                )
            &&& graph::walk_ok(live_edges(*x), roots, w, x.isecs.len() as int)
        }),
{
    proof {
        crate::inputs::lemma_wf_redirects(*x);
    }
    let survivors: Vec<usize> = list_survivors(&x.isecs);
    let mut edges: Vec<Vec<usize>> = Vec::new();
    while edges.len() < x.isecs.len()
        invariant
            x.wf(),
            x.fdes_exist(),
            edges.len() <= x.isecs.len(),
            survivors.len() == x.isecs.len(),
            forall|i: int|
                0 <= i < survivors.len() ==> #[trigger] survivors[i] == crate::inputs::survivor(
                    x.isecs@,
                    i,
                ) && survivors[i] < x.isecs.len(),
            forall|i: int|
                0 <= i < edges.len() ==> (#[trigger] edges[i])@ == through(*x, edges_of(*x, i)),
            forall|i: int, k: int|
                0 <= i < edges.len() && 0 <= k < edges[i].len() ==> (#[trigger] edges[i]@[k])
                    < x.isecs.len(),
        decreases x.isecs.len() - edges.len(),
    {
        let e: Vec<usize> = list_edges(x, edges.len(), &survivors);
        edges.push(e);
    }
    let nodes: Vec<usize> = list_roots(x, init_funcs, output_type, entry);
    let mut roots: Vec<usize> = Vec::new();
    while roots.len() < nodes.len()
        invariant
            roots.len() <= nodes.len(),
            survivors.len() == x.isecs.len(),
            forall|k: int| 0 <= k < nodes.len() ==> (#[trigger] nodes[k]) < x.isecs.len(),
            forall|i: int|
                0 <= i < survivors.len() ==> #[trigger] survivors[i] == crate::inputs::survivor(
                    x.isecs@,
                    i,
                ) && survivors[i] < x.isecs.len(),
            roots@ =~= through(*x, nodes@).take(roots.len() as int),
            forall|k: int| 0 <= k < roots.len() ==> (#[trigger] roots[k]) < x.isecs.len(),
        decreases nodes.len() - roots.len(),
    {
        let i: usize = nodes[roots.len()];
        assert(survivors[i as int] == crate::inputs::survivor(x.isecs@, i as int));
        roots.push(survivors[i]);
    }
    assert(roots@ =~= through(*x, nodes@));
    assert(graph::lists(edges@) =~= live_edges(*x));
    proof {
        let ev = graph::lists(edges@);
        assert forall|i: int, k: int|
            0 <= i < ev.len() && 0 <= k < ev[i].len() implies #[trigger] ev[i][k]
            < x.isecs.len() by {
            assert(ev[i] == edges[i]@);
            assert(edges[i]@[k] < x.isecs.len());
        }
    }
    graph::walk(&edges, &roots)
}

/// The subsections with those that are not live taken out.
pub open spec fn stripped(isecs: Seq<InputSection>, live: Seq<bool>) -> Seq<InputSection> {
    Seq::new(
        isecs.len(),
        |i: int| InputSection { is_alive: live[i] && isecs[i].is_alive, ..isecs[i] },
    )
}

fn strip_sections(isecs: &mut Vec<InputSection>, live: &Vec<bool>)
    requires
        live.len() == old(isecs).len(),
    ensures
        final(isecs)@ == stripped(old(isecs)@, live@),
{
    let ghost start = isecs@;
    let mut i: usize = 0;
    while i < isecs.len()
        invariant
            i <= isecs.len(),
            isecs.len() == start.len(),
            live.len() == start.len(),
            forall|k: int| 0 <= k < i ==> #[trigger] isecs[k] == stripped(start, live@)[k],
            forall|k: int| i <= k < isecs.len() ==> #[trigger] isecs[k] == start[k],
        decreases isecs.len() - i,
    {
        isecs[i].is_alive = live[i] && isecs[i].is_alive;
        i += 1;
    }
    assert(isecs@ =~= stripped(start, live@));
}

/// Which FDEs stay: those of live functions.
pub open spec fn fdes_kept(fdes: Seq<Fde>, live: Seq<bool>) -> Seq<bool> {
    fdes.map_values(|f: Fde| live[f.isec as int])
}

/// A record's FDE after the dead ones were dropped.
pub open spec fn moved_fde(fde: Option<usize>, kept: Seq<bool>) -> Option<usize> {
    match fde {
        Some(f) => if kept[f as int] {
            Some(lists::count_kept(kept, f as int) as usize)
        } else {
            None
        },
        None => None,
    }
}

/// The first `n` records without those of dead functions, their FDEs
/// renumbered.
pub open spec fn live_records(
    records: Seq<UnwindRecord>,
    isecs: Seq<InputSection>,
    kept: Seq<bool>,
    n: int,
) -> Seq<UnwindRecord>
    decreases n,
{
    if n <= 0 {
        Seq::empty()
    } else {
        let before = live_records(records, isecs, kept, n - 1);
        let r = records[n - 1];
        if isecs[r.isec as int].is_alive {
            before.push(UnwindRecord { fde: moved_fde(r.fde, kept), ..r })
        } else {
            before
        }
    }
}

fn drop_records(
    records: &Vec<UnwindRecord>,
    isecs: &Vec<InputSection>,
    kept: &Vec<bool>,
) -> (r: Vec<UnwindRecord>)
    requires
        forall|k: int|
            0 <= k < records.len() ==> (#[trigger] records[k]).isec < isecs.len() && (
            records[k].fde matches Some(f) ==> f < kept.len()),
    ensures
        r@ == live_records(records@, isecs@, kept@, records.len() as int),
{
    let counts: Vec<usize> = lists::count_all(kept);
    let mut out: Vec<UnwindRecord> = Vec::new();
    let mut i: usize = 0;
    while i < records.len()
        invariant
            i <= records.len(),
            counts.len() == kept.len(),
            forall|k: int|
                0 <= k < counts.len() ==> #[trigger] counts[k] == lists::count_kept(kept@, k),
            forall|k: int|
                0 <= k < records.len() ==> (#[trigger] records[k]).isec < isecs.len() && (
                records[k].fde matches Some(f) ==> f < kept.len()),
            out@ == live_records(records@, isecs@, kept@, i as int),
        decreases records.len() - i,
    {
        let r: UnwindRecord = records[i];
        if isecs[r.isec].is_alive {
            let fde: Option<usize> = match r.fde {
                Some(f) => if kept[f] {
                    Some(counts[f])
                } else {
                    None
                },
                None => None,
            };
            out.push(UnwindRecord { fde, ..r });
        }
        i += 1;
    }
    out
}

/// Where the run of records of one subsection that starts before `i` ends.
pub open spec fn run_end(records: Seq<UnwindRecord>, isec: usize, i: int) -> int
    decreases records.len() - i,
{
    if 0 <= i < records.len() && records[i].isec == isec {
        run_end(records, isec, i + 1)
    } else {
        i
    }
}

proof fn lemma_run_end(records: Seq<UnwindRecord>, isec: usize, i: int)
    requires
        0 <= i <= records.len(),
    ensures
        i <= run_end(records, isec, i) <= records.len(),
        forall|k: int|
            i <= k < run_end(records, isec, i) ==> (#[trigger] records[k]).isec == isec,
    decreases records.len() - i,
{
    if i < records.len() && records[i].isec == isec {
        lemma_run_end(records, isec, i + 1);
    }
}

/// The subsections with the ranges of their unwind records brought up to
/// date, for the runs that start at or behind `i`.
pub open spec fn refreshed(
    isecs: Seq<InputSection>,
    records: Seq<UnwindRecord>,
    i: int,
) -> Seq<InputSection>
    decreases records.len() - i,
{
    if i < 0 || i >= records.len() {
        isecs
    } else {
        let id = records[i].isec;
        let end = run_end(records, id, i + 1);
        if end <= i || end > records.len() {
            isecs
        } else {
            refreshed(
                isecs.update(
                    id as int,
                    InputSection {
                        unwind_offset: i as u32,
                        nunwind: (end - i) as u32,
                        ..isecs[id as int]
                    },
                ),
                records,
                end,
            )
        }
    }
}

/// Rebuilds each subsection's range of unwind records after the list of
/// records was compacted. The records stay grouped by subsection, so that
/// one walk over the runs restores every range.
pub fn refresh_unwind_ranges(isecs: &mut Vec<InputSection>, records: &Vec<UnwindRecord>)
    requires
        records.len() < u32::MAX,
        forall|k: int|
            0 <= k < records.len() ==> (#[trigger] records[k]).isec < old(isecs).len(),
    ensures
        final(isecs)@ == refreshed(old(isecs)@, records@, 0),
        final(isecs).len() == old(isecs).len(),
{
    let ghost start = isecs@;
    let mut i: usize = 0;
    while i < records.len()
        invariant
            i <= records.len(),
            records.len() < u32::MAX,
            isecs.len() == start.len(),
            forall|k: int|
                0 <= k < records.len() ==> (#[trigger] records[k]).isec < start.len(),
            refreshed(isecs@, records@, i as int) == refreshed(start, records@, 0),
        decreases records.len() - i,
    {
        let id: usize = records[i].isec;
        let first: usize = i;
        let ghost before = isecs@;
        i += 1;
        proof {
            lemma_run_end(records@, id, i as int);
        }
        while i < records.len() && records[i].isec == id
            invariant
                first < i <= records.len(),
                run_end(records@, id, i as int) == run_end(records@, id, first + 1),
            decreases records.len() - i,
        {
            i += 1;
        }
        isecs[id].unwind_offset = first as u32;
        isecs[id].nunwind = (i - first) as u32;
        assert(isecs@ =~= before.update(
            id as int,
            InputSection {
                unwind_offset: first as u32,
                nunwind: (i - first) as u32,
                ..before[id as int]
            },
        ));
    }
}

/// Refreshing changes the ranges alone, and gives every subsection that has
/// records a range of its own records.
proof fn lemma_refreshed(isecs: Seq<InputSection>, records: Seq<UnwindRecord>, i: int, id: int)
    requires
        0 <= i <= records.len(),
        records.len() < u32::MAX,
        0 <= id < isecs.len(),
        forall|k: int| 0 <= k < records.len() ==> (#[trigger] records[k]).isec < isecs.len(),
    ensures
        ({
            let after = refreshed(isecs, records, i);
            let s = after[id];
            &&& after.len() == isecs.len()
            &&& s == InputSection {
                unwind_offset: s.unwind_offset,
                nunwind: s.nunwind,
                ..isecs[id]
            }
            &&& s == isecs[id] || (s.unwind_offset + s.nunwind <= records.len() && forall|k: int|
                s.unwind_offset <= k < s.unwind_offset + s.nunwind ==> (
                #[trigger] records[k]).isec == id)
            &&& forall|k: int|
                i <= k < records.len() && (#[trigger] records[k]).isec == id ==> s.unwind_offset
                    + s.nunwind <= records.len() && forall|j: int|
                    s.unwind_offset <= j < s.unwind_offset + s.nunwind ==> (
                    #[trigger] records[j]).isec == id
        }),
    decreases records.len() - i,
{
    if i < records.len() {
        let r = records[i].isec;
        let end = run_end(records, r, i + 1);
        lemma_run_end(records, r, i + 1);
        let next = isecs.update(
            r as int,
            InputSection {
                unwind_offset: i as u32,
                nunwind: (end - i) as u32,
                ..isecs[r as int]
            },
        );
        lemma_refreshed(next, records, end, id);
        assert(refreshed(isecs, records, i) == refreshed(next, records, end));
    }
}

/// Drops everything that is not live: marks the subsections, drops the
/// unwind records and FDEs of dead functions, and renumbers what refers to
/// them.
pub fn drop_dead(x: &mut Inputs, live: &Vec<bool>)
    requires
        old(x).wf(),
        old(x).fdes_exist(),
        live.len() == old(x).isecs.len(),
    ensures
        ({
            let marked = stripped(old(x).isecs@, live@);
            let kept = fdes_kept(old(x).fdes@, live@);
            let records = live_records(
                old(x).unwind_records@,
                marked,
                kept,
                old(x).unwind_records.len() as int,
            );
            &&& final(x).isecs@ == refreshed(marked, records, 0)
            &&& final(x).fdes@ == lists::kept(old(x).fdes@, kept)
            &&& final(x).unwind_records@ == records
        }),
        final(x).objs == old(x).objs,
        final(x).symtab == old(x).symtab,
        final(x).synthetic_hdrs == old(x).synthetic_hdrs,
        final(x).cies == old(x).cies,
        final(x).wf(),
        final(x).fdes_exist(),
{
    let ghost before = *x;
    strip_sections(&mut x.isecs, live);
    let mut kept: Vec<bool> = Vec::new();
    while kept.len() < x.fdes.len()
        invariant
            kept.len() <= x.fdes.len(),
            before.wf(),
            x.fdes == before.fdes,
            live.len() == before.isecs.len(),
            kept@ =~= fdes_kept(x.fdes@, live@).take(kept.len() as int),
        decreases x.fdes.len() - kept.len(),
    {
        proof {
            assert(before.fde_ok(before.fdes[kept.len() as int]));
        }
        let l: bool = live[x.fdes[kept.len()].isec];
        kept.push(l);
    }
    assert(kept@ =~= fdes_kept(x.fdes@, live@));
    proof {
        assert forall|k: int| 0 <= k < x.unwind_records.len() implies (
        #[trigger] x.unwind_records[k]).isec < x.isecs.len() && (
        x.unwind_records[k].fde matches Some(f) ==> f < kept.len()) by {
            assert(before.record_ok(before.unwind_records[k]));
        }
    }
    let records: Vec<UnwindRecord> = drop_records(&x.unwind_records, &x.isecs, &kept);
    lists::retain(&mut x.fdes, &kept);
    x.unwind_records = records;
    let ghost marked = x.isecs@;
    proof {
        lemma_live_records(before, marked, kept@, before.unwind_records.len() as int);
    }
    refresh_unwind_ranges(&mut x.isecs, &x.unwind_records);
    proof {
        lemma_drop_wf(before, *x, live@, kept@, marked);
    }
}

/// The records that stay refer to live subsections and to FDEs that stay.
proof fn lemma_live_records(
    x: Inputs,
    marked: Seq<InputSection>,
    kept: Seq<bool>,
    n: int,
)
    requires
        x.wf(),
        x.fdes_exist(),
        marked.len() == x.isecs.len(),
        kept.len() == x.fdes.len(),
        0 <= n <= x.unwind_records.len(),
    ensures
        ({
            let records = live_records(x.unwind_records@, marked, kept, n);
            &&& records.len() <= n
            &&& forall|k: int|
                0 <= k < records.len() ==> {
                    let r = #[trigger] records[k];
                    &&& r.isec < x.isecs.len()
                    &&& marked[r.isec as int].is_alive
                    &&& r.lsda matches Some(l) ==> l.0 < x.isecs.len()
                    &&& r.personality matches Some(p) ==> p < x.symtab.syms.len()
                    &&& r.fde matches Some(f) ==> f < lists::count_kept(kept, kept.len() as int)
                }
            &&& forall|k: int|
                0 <= k < n && marked[(#[trigger] x.unwind_records[k]).isec as int].is_alive
                    ==> has_record(records, x.unwind_records[k].isec)
        }),
    decreases n,
{
    if n > 0 {
        lemma_live_records(x, marked, kept, n - 1);
        let before = live_records(x.unwind_records@, marked, kept, n - 1);
        let records = live_records(x.unwind_records@, marked, kept, n);
        let r = x.unwind_records[n - 1];
        assert(x.record_ok(x.unwind_records[n - 1]));
        if let Some(f) = r.fde {
            lists::lemma_count_kept(kept, f as int);
        }
        if marked[r.isec as int].is_alive {
            assert(records[before.len() as int].isec == r.isec);
            assert(has_record(records, r.isec));
        }
        assert forall|k: int|
            0 <= k < n && marked[(
            #[trigger] x.unwind_records[k]).isec as int].is_alive implies has_record(
            records,
            x.unwind_records[k].isec,
        ) by {
            if k < n - 1 {
                let id = x.unwind_records[k].isec;
                let j = choose|j: int| 0 <= j < before.len() && (#[trigger] before[j]).isec == id;
                assert(records[j].isec == id);
            }
        }
    }
}

/// True when some record is about the subsection.
pub open spec fn has_record(records: Seq<UnwindRecord>, isec: usize) -> bool {
    exists|j: int| 0 <= j < records.len() && (#[trigger] records[j]).isec == isec
}

proof fn lemma_drop_wf(
    before: Inputs,
    x: Inputs,
    live: Seq<bool>,
    kept: Seq<bool>,
    marked: Seq<InputSection>,
)
    requires
        before.wf(),
        before.fdes_exist(),
        live.len() == before.isecs.len(),
        marked == stripped(before.isecs@, live),
        kept == fdes_kept(before.fdes@, live),
        x.unwind_records@ == live_records(
            before.unwind_records@,
            marked,
            kept,
            before.unwind_records.len() as int,
        ),
        x.fdes@ == lists::kept(before.fdes@, kept),
        x.isecs@ == refreshed(marked, x.unwind_records@, 0),
        x.objs == before.objs,
        x.symtab == before.symtab,
        x.synthetic_hdrs == before.synthetic_hdrs,
        x.cies == before.cies,
    ensures
        x.wf(),
        x.fdes_exist(),
{
    let n = before.unwind_records.len() as int;
    lemma_live_records(before, marked, kept, n);
    let records = x.unwind_records@;
    lists::lemma_kept(before.fdes@, kept, before.fdes.len() as int);
    assert(x.isecs.len() == before.isecs.len()) by {
        if before.isecs.len() > 0 {
            lemma_refreshed(marked, records, 0, 0);
        } else {
            assert(records.len() == 0) by {
                if records.len() > 0 {
                    assert(records[0].isec < before.isecs.len());
                }
            }
        }
    }
    assert forall|i: int| 0 <= i < x.isecs.len() implies x.isec_ok(#[trigger] x.isecs[i])
        && x.range_ok(i) by {
        lemma_refreshed(marked, records, 0, i);
        assert(before.isec_ok(before.isecs[i]));
        assert(before.range_ok(i));
        let s = x.isecs[i];
        assert(s.relocs == before.isecs[i].relocs);
        assert forall|k: int| 0 <= k < s.relocs.len() implies x.reloc_ok(
            s.obj,
            #[trigger] s.relocs[k],
        ) by {
            assert(before.reloc_ok(s.obj, before.isecs[i].relocs[k]));
        }
        if s.is_alive && s.nunwind > 0 {
            if s == marked[i] {
                let first = before.unwind_records[s.unwind_offset as int];
                assert(first.isec == i);
                assert(has_record(records, i as usize));
                let j = choose|j: int|
                    0 <= j < records.len() && (#[trigger] records[j]).isec == i as usize;
                assert(records[j].isec == i);
            }
        }
    }
    assert forall|i: int| 0 <= i < x.isecs.len() implies #[trigger] x.range_ok(i) by {
        assert(x.isec_ok(x.isecs[i]));
    }
    assert forall|i: int| 0 <= i < x.objs.len() implies x.obj_ok(#[trigger] x.objs[i]) by {
        assert(before.obj_ok(before.objs[i]));
    }
    assert forall|i: int| 0 <= i < x.fdes.len() implies x.fde_ok(#[trigger] x.fdes[i]) by {
        let j = choose|j: int| 0 <= j < before.fdes.len() && #[trigger] before.fdes@[j] == x.fdes@[i];
        assert(before.fde_ok(before.fdes[j]));
    }
    if kept.len() > 0 {
        lists::lemma_count_kept(kept, 0);
    }
    assert forall|i: int| 0 <= i < records.len() implies x.record_ok(
        #[trigger] x.unwind_records[i],
    ) by {
        let r = records[i];
        assert(r.isec < before.isecs.len());
    }
    assert forall|i: int| 0 <= i < x.cies.len() implies x.cie_ok(#[trigger] x.cies[i]) by {
        assert(before.cie_ok(before.cies[i]));
    }
    assert forall|i: int| 0 <= i < x.symtab.syms.len() implies x.sym_ok(
        #[trigger] x.symtab.syms[i],
    ) by {
        assert(before.sym_ok(before.symtab.syms[i]));
    }
}

/// Removes the subsections that are not reachable from the roots. Returns
/// the liveness walk.
pub fn dead_strip(
    x: &mut Inputs,
    init_funcs: &Vec<(usize, u64)>,
    output_type: u32,
    entry: Option<u32>,
) -> (w: graph::Walk)
    requires
        old(x).wf(),
        old(x).fdes_exist(),
        forall|k: int|
            0 <= k < init_funcs.len() ==> (#[trigger] init_funcs[k]).0 < old(x).isecs.len(),
        entry matches Some(id) ==> id < old(x).symtab.syms.len(),
    ensures
        ({
            let roots = through(*old(x), live_roots(*old(x), init_funcs@, output_type, entry));
            &&& w.live.len() == old(x).isecs.len()
            &&& forall|i: int|
                0 <= i < w.live.len() ==> #[trigger] w.live[i] == graph::reachable(
                    live_edges(*old(x)),
                    roots,
                    i,
                )
            &&& graph::walk_ok(live_edges(*old(x)), roots, w, old(x).isecs.len() as int)
        }),
        ({
            let marked = stripped(old(x).isecs@, w.live@);
            let kept = fdes_kept(old(x).fdes@, w.live@);
            let records = live_records(
                old(x).unwind_records@,
                marked,
                kept,
                old(x).unwind_records.len() as int,
            );
            &&& final(x).isecs@ == refreshed(marked, records, 0)
            &&& final(x).fdes@ == lists::kept(old(x).fdes@, kept)
            &&& final(x).unwind_records@ == records
        }),
        final(x).isecs.len() == old(x).isecs.len(),
        forall|i: int|
            0 <= i < old(x).isecs.len() ==> (#[trigger] final(x).isecs[i]).is_alive == (
            old(x).isecs[i].is_alive && strip_laws::is_needed(
                *old(x),
                init_funcs@,
                output_type,
                entry,
                i,
            )),
        output_type != 2 ==> forall|k: int|
            {
                let s = #[trigger] old(x).symtab.syms[k];
                let to = crate::inputs::survivor(old(x).isecs@, s.isec as int);
                0 <= k < old(x).symtab.syms.len() && s.flags.is_extern
                    && !s.flags.is_private_extern && s.defined_by() != Origin::Undef && s.isec
                    != u32::MAX && old(x).isecs[to].is_alive ==> final(x).isecs[to].is_alive
            },
        final(x).objs == old(x).objs,
        final(x).symtab == old(x).symtab,
        final(x).synthetic_hdrs == old(x).synthetic_hdrs,
        final(x).cies == old(x).cies,
        final(x).wf(),
        final(x).fdes_exist(),
{
    let ghost before = *x;
    let w: graph::Walk = find_live(x, init_funcs, output_type, entry);
    drop_dead(x, &w.live);
    proof {
        lemma_stripped(before, *x, w.live@);
        assert forall|i: int| 0 <= i < before.isecs.len() implies (#[trigger] x.isecs[i]).is_alive
            == (before.isecs[i].is_alive && strip_laws::is_needed(
            before,
            init_funcs@,
            output_type,
            entry,
            i,
        )) by {
            strip_laws::lemma_reached_is_needed(before, init_funcs@, output_type, entry, i);
            assert(w.live[i] == strip_laws::is_needed(before, init_funcs@, output_type, entry, i));
        }
        if output_type != 2 {
            lemma_exports_alive(before, *x, init_funcs@, output_type, entry);
        }
    }
    w
}

/// Stripping and refreshing decide on liveness by the walk alone.
proof fn lemma_stripped(before: Inputs, x: Inputs, live: Seq<bool>)
    requires
        before.wf(),
        before.fdes_exist(),
        live.len() == before.isecs.len(),
        x.unwind_records@ == live_records(
            before.unwind_records@,
            stripped(before.isecs@, live),
            fdes_kept(before.fdes@, live),
            before.unwind_records.len() as int,
        ),
        x.isecs@ == refreshed(stripped(before.isecs@, live), x.unwind_records@, 0),
    ensures
        x.isecs.len() == before.isecs.len(),
        forall|i: int|
            0 <= i < before.isecs.len() ==> (#[trigger] x.isecs[i]).is_alive == (live[i]
                && before.isecs[i].is_alive),
{
    let marked = stripped(before.isecs@, live);
    let kept = fdes_kept(before.fdes@, live);
    let records = x.unwind_records@;
    lemma_live_records(before, marked, kept, before.unwind_records.len() as int);
    if before.isecs.len() == 0 {
        if records.len() > 0 {
            assert(records[0].isec < before.isecs.len());
        }
    } else {
        lemma_refreshed(marked, records, 0, 0);
    }
    assert forall|i: int| 0 <= i < before.isecs.len() implies (#[trigger] x.isecs[i]).is_alive == (
    live[i] && before.isecs[i].is_alive) by {
        lemma_refreshed(marked, records, 0, i);
    }
}

proof fn lemma_exports_alive(
    before: Inputs,
    x: Inputs,
    init_funcs: Seq<(usize, u64)>,
    output_type: u32,
    entry: Option<u32>,
)
    requires
        before.wf(),
        output_type != 2,
        forall|i: int|
            0 <= i < before.isecs.len() ==> (#[trigger] x.isecs[i]).is_alive == (
            before.isecs[i].is_alive && strip_laws::is_needed(
                before,
                init_funcs,
                output_type,
                entry,
                i,
            )),
    ensures
        forall|k: int|
            {
                let s = #[trigger] before.symtab.syms[k];
                let to = crate::inputs::survivor(before.isecs@, s.isec as int);
                0 <= k < before.symtab.syms.len() && s.flags.is_extern
                    && !s.flags.is_private_extern && s.defined_by() != Origin::Undef && s.isec
                    != u32::MAX && before.isecs[to].is_alive ==> x.isecs[to].is_alive
            },
{
    assert forall|k: int|
        {
            let s = #[trigger] before.symtab.syms[k];
            let to = crate::inputs::survivor(before.isecs@, s.isec as int);
            0 <= k < before.symtab.syms.len() && s.flags.is_extern && !s.flags.is_private_extern
                && s.defined_by() != Origin::Undef && s.isec != u32::MAX
                && before.isecs[to].is_alive ==> x.isecs[to].is_alive
        } by {
        let s = before.symtab.syms[k];
        if 0 <= k < before.symtab.syms.len() && s.flags.is_extern && !s.flags.is_private_extern
            && s.defined_by() != Origin::Undef && s.isec != u32::MAX {
            strip_laws::lemma_exports_stay(before, init_funcs, output_type, entry, k);
            crate::inputs::lemma_wf_redirects(before);
            crate::inputs::lemma_follow_exists(
                before.isecs@,
                s.isec as int,
                before.isecs.len() as nat,
            );
        }
    }
}

proof fn lemma_with_option(s: Seq<usize>, o: Option<usize>, n: usize)
    requires
        s.contains(n) || o == Some(n),
    ensures
        with_option(s, o).contains(n),
{
    if let Some(i) = o {
        let t = s.push(i);
        if s.contains(n) {
            let k = choose|k: int| 0 <= k < s.len() && s[k] == n;
            assert(t[k] == n);
        } else {
            assert(t[s.len() as int] == n);
        }
    }
}

proof fn lemma_reloc_listed(x: Inputs, id: int, k: int, n: int, t: usize)
    requires
        0 <= k < n,
        x.target_isec(x.isecs[id].obj, x.isecs[id].relocs[k]) matches Some(i) && i == t,
    ensures
        reloc_targets(x, id, n).contains(t),
    decreases n,
{
    let s = x.isecs[id];
    let o = match x.target_isec(s.obj, s.relocs[n - 1]) {
        Some(t) => Some(t as usize),
        None => None,
    };
    if k < n - 1 {
        lemma_reloc_listed(x, id, k, n - 1, t);
    }
    lemma_with_option(reloc_targets(x, id, n - 1), o, t);
}

proof fn lemma_record_keeps(x: Inputs, r: UnwindRecord, acc: Seq<usize>, t: usize)
    requires
        acc.contains(t),
    ensures
        record_targets(x, r, acc).contains(t),
{
    let o = match r.lsda {
        Some(l) => Some(l.0),
        None => None,
    };
    let a = with_option(acc, o);
    lemma_with_option(acc, o, t);
    let p = match r.fde {
        Some(f) => match x.fdes[f as int].lsda {
            Some(l) => Some(l.0),
            None => None,
        },
        None => None,
    };
    let b = with_option(a, p);
    lemma_with_option(a, p, t);
    let q = match personality_of(x, r) {
        Some(p) => sym_node(x.symtab.syms[p as int]),
        None => None,
    };
    lemma_with_option(b, q, t);
}

proof fn lemma_kept_by_relocs(x: Inputs, id: int, k: int, t: usize)
    requires
        reloc_targets(x, id, x.isecs[id].relocs.len() as int).contains(t),
    ensures
        kept_by(x, id, k).contains(t),
    decreases k,
{
    if k > 0 {
        lemma_kept_by_relocs(x, id, k - 1, t);
        lemma_record_keeps(
            x,
            x.unwind_records[x.isecs[id].unwind_offset + k - 1],
            kept_by(x, id, k - 1),
            t,
        );
    }
}

/// What live code refers to is live: if a subsection is reached from the
/// roots, so is the surviving copy of each subsection that its relocations
/// refer to.
pub proof fn lemma_targets_live(x: Inputs, roots: Seq<usize>, id: int, k: int, t: u32)
    requires
        x.wf(),
        0 <= id < x.isecs.len(),
        graph::reachable(live_edges(x), roots, id),
        0 <= k < x.isecs[id].relocs.len(),
        x.target_isec(x.isecs[id].obj, x.isecs[id].relocs[k]) == Some(t),
        t < x.isecs.len(),
    ensures
        graph::reachable(live_edges(x), roots, crate::inputs::survivor(x.isecs@, t as int)),
{
    let n = x.isecs[id].relocs.len() as int;
    lemma_reloc_listed(x, id, k, n, t as usize);
    lemma_kept_by_relocs(x, id, record_count(x.isecs[id]), t as usize);
    let nodes = edges_of(x, id);
    let j = choose|j: int| 0 <= j < nodes.len() && nodes[j] == t as usize;
    crate::inputs::lemma_wf_redirects(x);
    crate::inputs::lemma_follow_exists(x.isecs@, t as int, x.isecs.len() as nat);
    let to = crate::inputs::survivor(x.isecs@, t as int);
    assert(through(x, nodes)[j] == to as usize);
    assert(live_edges(x)[id][j] == to);
    assert(graph::has_edge(live_edges(x), id, to));
    graph::lemma_edge_reachable(live_edges(x), roots, id, to);
}

} // verus!
