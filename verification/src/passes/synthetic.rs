//! The symbols that the linker itself defines.
use crate::arch::Arch;
use crate::args::Args;
use crate::context::{Context, Layout};
use crate::input_files::dylib::strip_prefix;
use crate::inputs::Inputs;
use crate::macho::consts::MH_EXECUTE;
use crate::output_chunks::header::{Chunk, OutputSegment};
use crate::symbol::{Origin, SymView, Symbol, SymbolTable, TableState, NONE};
use crate::util::{bytes, text};
use vstd::prelude::*;
use vstd::string::*;

verus! {

/// A symbol whose value is where a section or segment starts or ends.
#[derive(Debug)]
pub struct Boundary {
    pub sym: u32,
    pub is_start: bool,
    pub segname: Vec<u8>,
    /// The section, or `None` for the whole segment.
    pub sectname: Option<Vec<u8>>,
}

/// A boundary symbol, as mathematical values.
#[verifier::ext_equal]
pub struct BoundaryView {
    pub sym: u32,
    pub is_start: bool,
    pub segname: Seq<u8>,
    pub sectname: Option<Seq<u8>>,
}

impl View for Boundary {
    type V = BoundaryView;

    open spec fn view(&self) -> BoundaryView {
        BoundaryView {
            sym: self.sym,
            is_start: self.is_start,
            segname: self.segname@,
            sectname: match self.sectname {
                Some(s) => Some(s@),
                None => None,
            },
        }
    }
}

/// What a list of boundary symbols holds.
pub open spec fn boundary_views(v: Seq<Boundary>) -> Seq<BoundaryView> {
    v.map_values(|b: Boundary| b@)
}

/// The boundary that a name stands for: section$start$SEG$SECT,
/// section$end$SEG$SECT, segment$start$SEG or segment$end$SEG.
pub open spec fn boundary_of(sym: u32, name: Seq<u8>) -> Option<BoundaryView> {
    match crate::input_files::dylib::behind(name, "section$".spec_bytes()) {
        Some(rest) => match text::parts_at(rest, 0x24) {
            Some((which, names)) => match text::parts_at(names, 0x24) {
                Some((seg, sect)) => Some(
                    BoundaryView {
                        sym,
                        is_start: which == "start".spec_bytes(),
                        segname: seg,
                        sectname: Some(sect),
                    },
                ),
                None => None,
            },
            None => None,
        },
        None => match crate::input_files::dylib::behind(name, "segment$".spec_bytes()) {
            Some(rest) => match text::parts_at(rest, 0x24) {
                Some((which, seg)) => Some(
                    BoundaryView {
                        sym,
                        is_start: which == "start".spec_bytes(),
                        segname: seg,
                        sectname: None,
                    },
                ),
                None => None,
            },
            None => None,
        },
    }
}

fn find_boundary(sym: u32, name: &[u8]) -> (r: Option<Boundary>)
    ensures
        match r {
            Some(b) => boundary_of(sym, name@) == Some(b@),
            None => boundary_of(sym, name@) is None,
        },
{
    match strip_prefix(name, "section$".as_bytes()) {
        Some(rest) => match text::split_once(rest.as_slice(), 0x24) {
            Some((which, names)) => match text::split_once(names.as_slice(), 0x24) {
                Some((seg, sect)) => Some(
                    Boundary {
                        sym,
                        is_start: bytes::same(which.as_slice(), "start".as_bytes()),
                        segname: seg,
                        sectname: Some(sect),
                    },
                ),
                None => None,
            },
            None => None,
        },
        None => match strip_prefix(name, "segment$".as_bytes()) {
            Some(rest) => match text::split_once(rest.as_slice(), 0x24) {
                Some((which, seg)) => Some(
                    Boundary {
                        sym,
                        is_start: bytes::same(which.as_slice(), "start".as_bytes()),
                        segname: seg,
                        sectname: None,
                    },
                ),
                None => None,
            },
            None => None,
        },
    }
}

/// The table with a name defined by the linker, unless something else
/// defines it.
pub open spec fn provided(t: TableState, name: Seq<u8>, value: u64, is_extern: bool) -> Option<
    TableState,
> {
    match t.with_symbol(name) {
        None => None,
        Some(u) => {
            let id = u.ids[name] as int;
            let s = u.syms[id];
            if s.is_open() {
                Some(
                    u.with(
                        id,
                        SymView { value, ..s.synthetic() }.with_extern(is_extern),
                    ),
                )
            } else {
                Some(u)
            }
        },
    }
}

fn provide(t: &mut SymbolTable, name: &[u8], value: u64, is_extern: bool) -> (r: bool)
    requires
        old(t).wf(),
    ensures
        final(t).wf(),
        r ==> provided(old(t).state(), name@, value, is_extern) == Some(final(t).state()),
        !r ==> provided(old(t).state(), name@, value, is_extern) is None && *final(t) == *old(t),
{
    let id: u32 = match t.find_or_add(name) {
        Some(id) => id,
        None => {
            return false;
        },
    };
    let ghost mid = *t;
    if !t.syms[id as usize].is_defined() {
        t.syms[id as usize].set_origin(Origin::Synthetic);
        t.syms[id as usize].value = value;
        t.syms[id as usize].flags.is_extern = is_extern;
        proof {
            crate::symbol::lemma_names_kept(mid, *t);
            assert(t.state().syms =~= mid.state().syms.update(
                id as int,
                SymView { value, ..mid.state().syms[id as int].synthetic() }.with_extern(is_extern),
            ));
        }
    }
    true
}

/// A second name for a definition.
pub open spec fn alias_of(old: SymView, src: SymView) -> SymView {
    SymView { kind: src.kind, file: src.file, isec: src.isec, value: src.value, ..old }.with_extern(
        true,
    )
}

/// True when the name that an alias stands for has no definition.
pub open spec fn alias_missing(t: TableState, existing: Seq<u8>) -> bool {
    !t.ids.contains_key(existing) || t.syms[t.ids[existing] as int].is_open()
}

/// The table with a second name for a definition, unless something else
/// defines that name.
pub open spec fn aliased(t: TableState, existing: Seq<u8>, new: Seq<u8>) -> Option<TableState> {
    match t.with_symbol(new) {
        None => None,
        Some(u) => {
            let src = u.syms[u.ids[existing] as int];
            let dst = u.ids[new] as int;
            if u.syms[dst].is_open() {
                Some(u.with(dst, alias_of(u.syms[dst], src)))
            } else {
                Some(u)
            }
        },
    }
}

/// The table after the first `n` aliases, and the names among them that are
/// missing.
pub open spec fn aliases_to(t: TableState, aliases: Seq<(Seq<u8>, Seq<u8>)>, n: int) -> Option<
    (TableState, Seq<Seq<u8>>),
>
    decreases n,
{
    if n <= 0 {
        Some((t, Seq::empty()))
    } else {
        match aliases_to(t, aliases, n - 1) {
            None => None,
            Some((u, missing)) => {
                let a = aliases[n - 1];
                if alias_missing(u, a.0) {
                    Some((u, missing.push(a.0)))
                } else {
                    match aliased(u, a.0, a.1) {
                        None => None,
                        Some(v) => Some((v, missing)),
                    }
                }
            },
        }
    }
}

proof fn lemma_aliases_none(t: TableState, aliases: Seq<(Seq<u8>, Seq<u8>)>, a: int, b: int)
    requires
        0 <= a <= b,
        aliases_to(t, aliases, a) is None,
    ensures
        aliases_to(t, aliases, b) is None,
    decreases b - a,
{
    if a < b {
        lemma_aliases_none(t, aliases, a, b - 1);
    }
}

fn add_alias(t: &mut SymbolTable, existing: &[u8], new: &[u8]) -> (r: Option<bool>)
    requires
        old(t).wf(),
    ensures
        final(t).wf(),
        match r {
            Some(true) => !alias_missing(old(t).state(), existing@) && aliased(
                old(t).state(),
                existing@,
                new@,
            ) == Some(final(t).state()),
            Some(false) => alias_missing(old(t).state(), existing@) && *final(t) == *old(t),
            None => !alias_missing(old(t).state(), existing@) && aliased(
                old(t).state(),
                existing@,
                new@,
            ) is None,
        },
{
    let src: u32 = match t.get(existing) {
        Some(id) => id,
        None => {
            return Some(false);
        },
    };
    assert(t.ids().contains_key(existing@));
    assert(t.state().syms[src as int] == t.syms[src as int]@);
    if !t.syms[src as usize].is_defined() {
        return Some(false);
    }
    let dst: u32 = match t.find_or_add(new) {
        Some(id) => id,
        None => {
            return None;
        },
    };
    let ghost mid = *t;
    assert(mid.ids()[existing@] == src);
    assert(mid.ids().contains_key(existing@));
    assert(mid.state().syms[dst as int] == mid.syms[dst as int]@);
    assert(mid.state().syms[src as int] == mid.syms[src as int]@);
    if !t.syms[dst as usize].is_defined() {
        let s: &Symbol = &t.syms[src as usize];
        let (kind, file, isec, value): (u8, u32, u32, u64) = (s.kind, s.file, s.isec, s.value);
        t.syms[dst as usize].kind = kind;
        t.syms[dst as usize].file = file;
        t.syms[dst as usize].isec = isec;
        t.syms[dst as usize].value = value;
        t.syms[dst as usize].flags.is_extern = true;
        proof {
            crate::symbol::lemma_names_kept(mid, *t);
            assert(t.state().syms =~= mid.state().syms.update(
                dst as int,
                alias_of(mid.state().syms[dst as int], mid.state().syms[src as int]),
            ));
        }
    }
    Some(true)
}

/// Gives definitions the second names that -alias asks for. Returns the
/// names that have no definition, or `None` when there is no room for a
/// symbol.
fn add_aliases(t: &mut SymbolTable, aliases: &Vec<(Vec<u8>, Vec<u8>)>) -> (r: Option<Vec<Vec<u8>>>)
    requires
        old(t).wf(),
    ensures
        final(t).wf(),
        ({
            let want = aliases_to(
                old(t).state(),
                super::chunk_list::pair_names(aliases@),
                aliases.len() as int,
            );
            match r {
                Some(m) => want == Some((final(t).state(), bytes::views(m@))),
                None => want is None,
            }
        }),
{
    let ghost start = t.state();
    let ghost av = super::chunk_list::pair_names(aliases@);
    let ghost end = aliases.len() as int;
    let mut missing: Vec<Vec<u8>> = Vec::new();
    assert(bytes::views(missing@) =~= Seq::empty());
    let mut n: usize = 0;
    while n < aliases.len()
        invariant
            n <= aliases.len(),
            start == old(t).state(),
            t.wf(),
            av == super::chunk_list::pair_names(aliases@),
            end == aliases.len(),
            aliases_to(start, av, n as int) == Some((t.state(), bytes::views(missing@))),
        decreases aliases.len() - n,
    {
        let a: &(Vec<u8>, Vec<u8>) = &aliases[n];
        assert(av[n as int] == (a.0@, a.1@));
        match add_alias(t, a.0.as_slice(), a.1.as_slice()) {
            Some(true) => {},
            Some(false) => {
                text::push_name(&mut missing, bytes::to_vec(a.0.as_slice()));
            },
            None => {
                proof {
                    lemma_aliases_none(start, av, n + 1, end);
                }
                return None;
            },
        }
        n += 1;
    }
    Some(missing)
}

/// A symbol after boundary names were claimed.
pub open spec fn with_boundary(s: SymView) -> SymView {
    if s.flags.is_used && s.is_open() && boundary_of(0, s.name) is Some {
        s.synthetic().with_extern(false)
    } else {
        s
    }
}

/// The boundary symbols among the first `n` symbols.
pub open spec fn boundaries_to(syms: Seq<SymView>, n: int) -> Seq<BoundaryView>
    decreases n,
{
    if n <= 0 {
        Seq::empty()
    } else {
        let s = syms[n - 1];
        match boundary_of((n - 1) as u32, s.name) {
            Some(b) => if s.flags.is_used && s.is_open() {
                boundaries_to(syms, n - 1).push(b)
            } else {
                boundaries_to(syms, n - 1)
            },
            None => boundaries_to(syms, n - 1),
        }
    }
}

/// The table with its boundary names claimed.
pub open spec fn bounded(t: TableState) -> TableState {
    TableState { syms: t.syms.map_values(|s: SymView| with_boundary(s)), ..t }
}

fn claim_boundaries(t: &mut SymbolTable) -> (r: Vec<Boundary>)
    requires
        old(t).wf(),
    ensures
        final(t).wf(),
        final(t).state() == bounded(old(t).state()),
        boundary_views(r@) == boundaries_to(
            old(t).state().syms,
            old(t).state().syms.len() as int,
        ),
        forall|i: int|
            0 <= i < r.len() ==> (#[trigger] r[i]).sym < final(t).syms.len(),
{
    let ghost first = *t;
    let ghost start = t.state().syms;
    let mut r: Vec<Boundary> = Vec::new();
    assert(boundary_views(r@) =~= Seq::empty());
    let mut n: usize = 0;
    while n < t.syms.len()
        invariant
            n <= t.syms.len(),
            first == *old(t),
            first.wf(),
            start == first.state().syms,
            t.syms.len() == first.syms.len(),
            t.shards == first.shards,
            t.syms.len() < NONE,
            forall|i: int|
                0 <= i < n ==> (#[trigger] t.syms[i])@ == with_boundary(start[i]),
            forall|i: int| n <= i < t.syms.len() ==> #[trigger] t.syms[i] == first.syms[i],
            forall|i: int|
                0 <= i < t.syms.len() ==> (#[trigger] t.syms[i]).name@ == first.syms[i].name@,
            boundary_views(r@) == boundaries_to(start, n as int),
            forall|i: int| 0 <= i < r.len() ==> (#[trigger] r[i]).sym < t.syms.len(),
        decreases t.syms.len() - n,
    {
        assert(t.syms[n as int] == first.syms[n as int]);
        assert(start[n as int] == first.syms[n as int]@);
        if t.syms[n].flags.is_used && !t.syms[n].is_defined() {
            if let Some(b) = find_boundary(n as u32, t.syms[n].name.as_slice()) {
                let ghost before = r@;
                let ghost bv = b@;
                r.push(b);
                t.syms[n].set_origin(Origin::Synthetic);
                t.syms[n].flags.is_extern = false;
                assert(boundary_views(r@) =~= boundary_views(before).push(bv));
                assert(boundary_of(0, start[n as int].name) is Some);
            }
        }
        n += 1;
    }
    proof {
        crate::symbol::lemma_names_kept(first, *t);
        assert(t.state().syms =~= bounded(first.state()).syms);
    }
    r
}

/// The table with the symbols that the linker provides, and the aliases
/// that are missing.
pub open spec fn synthesized(args: Args, t: TableState) -> Option<(TableState, Seq<Seq<u8>>)> {
    let header = if args.sw.output_type == MH_EXECUTE {
        provided(t, "__mh_execute_header".spec_bytes(), args.sw.pagezero_size, true)
    } else {
        Some(t)
    };
    match header {
        None => None,
        Some(u) => match provided(u, "___dso_handle".spec_bytes(), args.sw.pagezero_size, false) {
            None => None,
            Some(v) => aliases_to(
                v,
                super::chunk_list::pair_names(args.aliases@),
                args.aliases.len() as int,
            ),
        },
    }
}

/// The symbols that the linker provided.
#[derive(Debug)]
pub struct Provided {
    pub boundaries: Vec<Boundary>,
    /// The names that -alias asked a second name for, but nothing defines.
    pub missing: Vec<Vec<u8>>,
}

proof fn lemma_with_symbol_refs(t: TableState, name: Seq<u8>, a: int, b: int, c: int)
    requires
        t.refs_ok(a, b, c),
    ensures
        t.with_symbol(name) matches Some(u) ==> u.refs_ok(a, b, c) && t.syms.len() <= u.syms.len(),
{
    if let Some(u) = t.with_symbol(name) {
        assert forall|i: int| 0 <= i < u.syms.len() implies (#[trigger] u.syms[i]).refs_ok(
            a,
            b,
            c,
        ) by {
            if i < t.syms.len() {
                assert(u.syms[i] == t.syms[i]);
            }
        }
    }
}

proof fn lemma_provided_refs(
    t: TableState,
    name: Seq<u8>,
    value: u64,
    e: bool,
    a: int,
    b: int,
    c: int,
)
    requires
        t.refs_ok(a, b, c),
        forall|name: Seq<u8>| #[trigger]
            t.ids.contains_key(name) ==> t.ids[name] < t.syms.len(),
    ensures
        provided(t, name, value, e) matches Some(u) ==> u.refs_ok(a, b, c) && t.syms.len()
            <= u.syms.len(),
{
    lemma_with_symbol_refs(t, name, a, b, c);
    if let Some(u) = t.with_symbol(name) {
        assert(u.ids[name] < u.syms.len());
        let v = provided(t, name, value, e)->Some_0;
        assert forall|i: int| 0 <= i < v.syms.len() implies (#[trigger] v.syms[i]).refs_ok(
            a,
            b,
            c,
        ) by {
            assert(u.syms[i].refs_ok(a, b, c));
        }
    }
}

proof fn lemma_aliases_refs(
    t: TableState,
    aliases: Seq<(Seq<u8>, Seq<u8>)>,
    n: int,
    a: int,
    b: int,
    c: int,
)
    requires
        t.refs_ok(a, b, c),
        forall|name: Seq<u8>| #[trigger]
            t.ids.contains_key(name) ==> t.ids[name] < t.syms.len(),
    ensures
        aliases_to(t, aliases, n) matches Some(p) ==> {
            &&& p.0.refs_ok(a, b, c)
            &&& t.syms.len() <= p.0.syms.len()
            &&& forall|name: Seq<u8>| #[trigger]
                p.0.ids.contains_key(name) ==> p.0.ids[name] < p.0.syms.len()
        },
    decreases n,
{
    if n > 0 {
        lemma_aliases_refs(t, aliases, n - 1, a, b, c);
        if let Some((u, _)) = aliases_to(t, aliases, n - 1) {
            let x = aliases[n - 1];
            if !alias_missing(u, x.0) {
                lemma_with_symbol_refs(u, x.1, a, b, c);
                if let Some(w) = u.with_symbol(x.1) {
                    assert(w.ids.contains_key(x.0));
                    let src = w.ids[x.0] as int;
                    assert(src < w.syms.len());
                    assert(w.syms[src].refs_ok(a, b, c));
                    let v = aliased(u, x.0, x.1)->Some_0;
                    assert forall|i: int| 0 <= i < v.syms.len() implies (
                    #[trigger] v.syms[i]).refs_ok(a, b, c) by {
                        assert(w.syms[i].refs_ok(a, b, c));
                    }
                }
            }
        }
    }
}

proof fn lemma_ids_exist(t: SymbolTable)
    requires
        t.wf(),
    ensures
        forall|name: Seq<u8>| #[trigger]
            t.state().ids.contains_key(name) ==> t.state().ids[name] < t.state().syms.len(),
{
    assert forall|name: Seq<u8>| #[trigger]
        t.state().ids.contains_key(name) implies t.state().ids[name] < t.state().syms.len() by {
        assert(t.ids().contains_key(name));
    }
}

/// True when what a context's symbols refer to exists.
pub open spec fn refs_exist(ctx: Context) -> bool {
    ctx.inputs.symtab.state().refs_ok(
        ctx.inputs.isecs.len() as int,
        ctx.dylibs.len() as int,
        ctx.sym_aux.len() as int,
    )
}

proof fn lemma_refs(ctx: Context)
    requires
        ctx.wf(),
    ensures
        refs_exist(ctx),
{
    let t = ctx.inputs.symtab.state();
    assert forall|i: int| 0 <= i < t.syms.len() implies (#[trigger] t.syms[i]).refs_ok(
        ctx.inputs.isecs.len() as int,
        ctx.dylibs.len() as int,
        ctx.sym_aux.len() as int,
    ) by {
        let s = ctx.inputs.symtab.syms[i];
        assert(t.syms[i] == s@);
        assert(ctx.sym_ok(s));
        assert(ctx.inputs.sym_ok(s));
    }
}

/// A context stays well-formed when its symbol table grows and what the
/// symbols refer to exists.
pub proof fn lemma_wf_with_table(a: Context, b: Context)
    requires
        a.wf(),
        b == (Context { inputs: (Inputs { symtab: b.inputs.symtab, ..a.inputs }), ..a }),
        a.inputs.symtab.syms.len() <= b.inputs.symtab.syms.len() < NONE,
        refs_exist(b),
    ensures
        b.wf(),
{
    let t = b.inputs.symtab.state();
    assert forall|i: int| 0 <= i < b.inputs.symtab.syms.len() implies b.sym_ok(
        #[trigger] b.inputs.symtab.syms[i],
    ) && b.inputs.sym_ok(b.inputs.symtab.syms[i]) by {
        assert(t.syms[i] == b.inputs.symtab.syms[i]@);
        assert(t.syms[i].refs_ok(
            b.inputs.isecs.len() as int,
            b.dylibs.len() as int,
            b.sym_aux.len() as int,
        ));
    }
    assert forall|i: int| 0 <= i < a.inputs.isecs.len() implies crate::inputs::same_part(
        a.inputs.isecs[i],
        #[trigger] b.inputs.isecs[i],
    ) && (b.inputs.isecs[i].replacement == crate::input_sections::NO_REPLACEMENT
        || b.inputs.isecs[i].replacement < b.inputs.isecs.len()) by {
        assert(a.inputs.isec_ok(a.inputs.isecs[i]));
    }
    crate::inputs::lemma_wf_grown(a.inputs, b.inputs);
    assert forall|i: int| 0 <= i < b.sym_aux.len() implies b.aux_ok(#[trigger] b.sym_aux[i]) by {
        assert(a.aux_ok(a.sym_aux[i]));
    }
}

/// Defines the symbols that the linker itself provides: the image's header,
/// second names, and the boundaries of sections and segments that code asks
/// for. `None` when there is no room for a symbol.
pub fn add_synthetic_symbols(ctx: &mut Context) -> (r: Option<Provided>)
    requires
        old(ctx).wf(),
        old(ctx).inputs.symtab.wf(),
    ensures
        final(ctx).inputs.symtab.wf(),
        *final(ctx) == (Context {
            inputs: (Inputs { symtab: final(ctx).inputs.symtab, ..old(ctx).inputs }),
            ..*old(ctx)
        }),
        ({
            let want = synthesized(old(ctx).args, old(ctx).inputs.symtab.state());
            match r {
                Some(p) => {
                    &&& want matches Some(w)
                    &&& final(ctx).inputs.symtab.state() == bounded(w.0)
                    &&& boundary_views(p.boundaries@) == boundaries_to(
                        w.0.syms,
                        w.0.syms.len() as int,
                    )
                    &&& bytes::views(p.missing@) == w.1
                    &&& final(ctx).wf()
                    &&& forall|i: int|
                        0 <= i < p.boundaries.len() ==> (#[trigger] p.boundaries[i]).sym
                            < final(ctx).inputs.symtab.syms.len()
                },
                None => want is None,
            }
        }),
{
    let ghost start = *ctx;
    let ghost (a, b, c) = (
        start.inputs.isecs.len() as int,
        start.dylibs.len() as int,
        start.sym_aux.len() as int,
    );
    proof {
        lemma_refs(start);
    }
    let base: u64 = ctx.args.sw.pagezero_size;
    let ghost t0 = start.inputs.symtab.state();
    if ctx.args.sw.output_type == MH_EXECUTE {
        proof {
            lemma_ids_exist(ctx.inputs.symtab);
            lemma_provided_refs(t0, "__mh_execute_header".spec_bytes(), base, true, a, b, c);
        }
        if !provide(&mut ctx.inputs.symtab, "__mh_execute_header".as_bytes(), base, true) {
            return None;
        }
    }
    let ghost t1 = ctx.inputs.symtab.state();
    proof {
        lemma_ids_exist(ctx.inputs.symtab);
        lemma_provided_refs(t1, "___dso_handle".spec_bytes(), base, false, a, b, c);
    }
    if !provide(&mut ctx.inputs.symtab, "___dso_handle".as_bytes(), base, false) {
        return None;
    }
    let ghost t2 = ctx.inputs.symtab.state();
    proof {
        lemma_ids_exist(ctx.inputs.symtab);
        lemma_aliases_refs(
            t2,
            super::chunk_list::pair_names(ctx.args.aliases@),
            ctx.args.aliases.len() as int,
            a,
            b,
            c,
        );
    }
    let missing: Vec<Vec<u8>> = match add_aliases(&mut ctx.inputs.symtab, &ctx.args.aliases) {
        Some(m) => m,
        None => {
            return None;
        },
    };
    let ghost t3 = ctx.inputs.symtab.state();
    let boundaries: Vec<Boundary> = claim_boundaries(&mut ctx.inputs.symtab);
    proof {
        let t4 = ctx.inputs.symtab.state();
        assert forall|i: int| 0 <= i < t4.syms.len() implies (#[trigger] t4.syms[i]).refs_ok(
            a,
            b,
            c,
        ) by {
            assert(t3.syms[i].refs_ok(a, b, c));
        }
        assert(t0.syms.len() == start.inputs.symtab.syms.len());
        assert(t4.syms.len() == ctx.inputs.symtab.syms.len());
        lemma_wf_with_table(start, *ctx);
    }
    Some(Provided { boundaries, missing })
}

/// The names of the sections that boundary symbols ask for.
pub open spec fn asked_sections(bs: Seq<BoundaryView>, n: int) -> Seq<(Seq<u8>, Seq<u8>)>
    decreases n,
{
    if n <= 0 {
        Seq::empty()
    } else {
        match bs[n - 1].sectname {
            Some(sect) => asked_sections(bs, n - 1).push((bs[n - 1].segname, sect)),
            None => asked_sections(bs, n - 1),
        }
    }
}

/// Lists the sections that boundary symbols ask for.
pub fn list_asked_sections(bs: &Vec<Boundary>) -> (r: Vec<(Vec<u8>, Vec<u8>)>)
    ensures
        super::chunk_list::pair_names(r@) == asked_sections(
            boundary_views(bs@),
            bs.len() as int,
        ),
{
    let ghost bv = boundary_views(bs@);
    let mut r: Vec<(Vec<u8>, Vec<u8>)> = Vec::new();
    assert(super::chunk_list::pair_names(r@) =~= Seq::empty());
    let mut n: usize = 0;
    while n < bs.len()
        invariant
            n <= bs.len(),
            bv == boundary_views(bs@),
            super::chunk_list::pair_names(r@) == asked_sections(bv, n as int),
        decreases bs.len() - n,
    {
        assert(bv[n as int] == bs[n as int]@);
        if let Some(sect) = &bs[n].sectname {
            let ghost before = r@;
            let p: (Vec<u8>, Vec<u8>) = (
                bytes::to_vec(bs[n].segname.as_slice()),
                bytes::to_vec(sect.as_slice()),
            );
            let ghost pv = (p.0@, p.1@);
            r.push(p);
            assert(super::chunk_list::pair_names(r@) =~= super::chunk_list::pair_names(
                before,
            ).push(pv));
        }
        n += 1;
    }
    r
}

/// The first section of the given names from the `i`th chunk on.
pub open spec fn section_at(chunks: Seq<Chunk>, seg: Seq<u8>, sect: Seq<u8>, i: int) -> Option<int>
    decreases chunks.len() - i,
{
    if i < 0 || i >= chunks.len() {
        None
    } else if chunks[i].hdr@.is_named(seg, sect) {
        Some(i)
    } else {
        section_at(chunks, seg, sect, i + 1)
    }
}

/// The first segment of the given name from the `i`th on.
pub open spec fn segment_at(segs: Seq<OutputSegment>, name: Seq<u8>, i: int) -> Option<int>
    decreases segs.len() - i,
{
    if i < 0 || i >= segs.len() {
        None
    } else if segs[i].name@ == name {
        Some(i)
    } else {
        segment_at(segs, name, i + 1)
    }
}

/// The address of a boundary. `None` when there is no such section or
/// segment.
pub open spec fn boundary_addr(l: Layout, b: BoundaryView) -> Option<u64> {
    match b.sectname {
        Some(sect) => match section_at(l.chunks@, b.segname, sect, 0) {
            None => None,
            Some(i) => Some(
                if b.is_start {
                    l.chunks[i].hdr.addr
                } else {
                    bytes::word64(l.chunks[i].hdr.addr + l.chunks[i].hdr.size)
                },
            ),
        },
        None => match segment_at(l.segments@, b.segname, 0) {
            None => None,
            Some(i) => Some(
                if b.is_start {
                    l.segments[i].cmd.vmaddr
                } else {
                    bytes::word64(l.segments[i].cmd.vmaddr + l.segments[i].cmd.vmsize)
                },
            ),
        },
    }
}

fn find_boundary_addr(l: &Layout, b: &Boundary) -> (r: Option<u64>)
    ensures
        r == boundary_addr(*l, b@),
{
    match &b.sectname {
        Some(sect) => {
            let mut i: usize = 0;
            while i < l.chunks.len()
                invariant
                    b@.sectname == Some(sect@),
                    boundary_addr(*l, b@) == match section_at(
                        l.chunks@,
                        b.segname@,
                        sect@,
                        i as int,
                    ) {
                        None => None::<u64>,
                        Some(i) => Some(
                            if b.is_start {
                                l.chunks[i].hdr.addr
                            } else {
                                bytes::word64(l.chunks[i].hdr.addr + l.chunks[i].hdr.size)
                            },
                        ),
                    },
                decreases l.chunks.len() - i,
            {
                let h = &l.chunks[i].hdr;
                if h.is_sect && bytes::same(h.segname.as_slice(), b.segname.as_slice())
                    && bytes::same(h.sectname.as_slice(), sect.as_slice()) {
                    return Some(
                        if b.is_start {
                            h.addr
                        } else {
                            bytes::sum64(h.addr, h.size)
                        },
                    );
                }
                i += 1;
            }
            None
        },
        None => {
            let mut i: usize = 0;
            while i < l.segments.len()
                invariant
                    b@.sectname is None,
                    boundary_addr(*l, b@) == match segment_at(
                        l.segments@,
                        b.segname@,
                        i as int,
                    ) {
                        None => None::<u64>,
                        Some(i) => Some(
                            if b.is_start {
                                l.segments[i].cmd.vmaddr
                            } else {
                                bytes::word64(l.segments[i].cmd.vmaddr + l.segments[i].cmd.vmsize)
                            },
                        ),
                    },
                decreases l.segments.len() - i,
            {
                let s = &l.segments[i];
                if bytes::same(s.name.as_slice(), b.segname.as_slice()) {
                    return Some(
                        if b.is_start {
                            s.cmd.vmaddr
                        } else {
                            bytes::sum64(s.cmd.vmaddr, s.cmd.vmsize)
                        },
                    );
                }
                i += 1;
            }
            None
        },
    }
}

/// The symbols with the values of the first `n` boundaries. `None` when a
/// boundary does not exist.
pub open spec fn valued_to(syms: Seq<Symbol>, l: Layout, bs: Seq<BoundaryView>, n: int) -> Option<
    Seq<Symbol>,
>
    decreases n,
{
    if n <= 0 {
        Some(syms)
    } else {
        match valued_to(syms, l, bs, n - 1) {
            None => None,
            Some(v) => match boundary_addr(l, bs[n - 1]) {
                None => None,
                Some(value) => {
                    let id = bs[n - 1].sym as int;
                    Some(v.update(id, Symbol { value, ..v[id] }))
                },
            },
        }
    }
}

proof fn lemma_valued_none(syms: Seq<Symbol>, l: Layout, bs: Seq<BoundaryView>, a: int, b: int)
    requires
        0 <= a <= b,
        valued_to(syms, l, bs, a) is None,
    ensures
        valued_to(syms, l, bs, b) is None,
    decreases b - a,
{
    if a < b {
        lemma_valued_none(syms, l, bs, a, b - 1);
    }
}

/// Fills in the addresses of boundary symbols. Returns the first whose
/// section or segment does not exist.
pub fn fix_synthetic_symbols(ctx: &mut Context, bs: &Vec<Boundary>) -> (r: Option<u32>)
    requires
        old(ctx).wf(),
        forall|i: int|
            0 <= i < bs.len() ==> (#[trigger] bs[i]).sym < old(ctx).inputs.symtab.syms.len(),
    ensures
        final(ctx).wf(),
        ({
            let want = valued_to(
                old(ctx).inputs.symtab.syms@,
                old(ctx).layout,
                boundary_views(bs@),
                bs.len() as int,
            );
            match r {
                None => want == Some(final(ctx).inputs.symtab.syms@),
                Some(id) => want is None && exists|i: int|
                    0 <= i < bs.len() && (#[trigger] bs[i]).sym == id && boundary_addr(
                        old(ctx).layout,
                        bs[i]@,
                    ) is None,
            }
        }),
        *final(ctx) == (Context {
            inputs: (Inputs {
                symtab: (SymbolTable {
                    syms: final(ctx).inputs.symtab.syms,
                    ..old(ctx).inputs.symtab
                }),
                ..old(ctx).inputs
            }),
            ..*old(ctx)
        }),
        old(ctx).inputs.symtab.wf() ==> final(ctx).inputs.symtab.wf(),
{
    let ghost start = *ctx;
    let ghost bv = boundary_views(bs@);
    let ghost end = bs.len() as int;
    let mut n: usize = 0;
    while n < bs.len()
        invariant
            n <= bs.len(),
            start == *old(ctx),
            start.wf(),
            bv == boundary_views(bs@),
            end == bs.len(),
            forall|i: int|
                0 <= i < bs.len() ==> (#[trigger] bs[i]).sym < start.inputs.symtab.syms.len(),
            valued_to(start.inputs.symtab.syms@, start.layout, bv, n as int) == Some(
                ctx.inputs.symtab.syms@,
            ),
            ctx.inputs.symtab.syms.len() == start.inputs.symtab.syms.len(),
            forall|i: int|
                0 <= i < ctx.inputs.symtab.syms.len() ==> #[trigger] ctx.inputs.symtab.syms[i] == (
                Symbol { value: ctx.inputs.symtab.syms[i].value, ..start.inputs.symtab.syms[i] }),
            *ctx == (Context {
                inputs: (Inputs {
                    symtab: (SymbolTable {
                        syms: ctx.inputs.symtab.syms,
                        ..start.inputs.symtab
                    }),
                    ..start.inputs
                }),
                ..start
            }),
        decreases bs.len() - n,
    {
        let b: &Boundary = &bs[n];
        assert(bv[n as int] == b@);
        match find_boundary_addr(&ctx.layout, b) {
            Some(value) => {
                let ghost before = ctx.inputs.symtab.syms@;
                ctx.inputs.symtab.syms[b.sym as usize].value = value;
                assert(ctx.inputs.symtab.syms@ =~= before.update(
                    b.sym as int,
                    Symbol { value, ..before[b.sym as int] },
                ));
            },
            None => {
                proof {
                    lemma_valued_none(start.inputs.symtab.syms@, start.layout, bv, n + 1, end);
                    lemma_values_kept(start, *ctx);
                }
                return Some(b.sym);
            },
        }
        n += 1;
    }
    proof {
        lemma_values_kept(start, *ctx);
    }
    None
}

/// A context stays well-formed when only the values of symbols change.
proof fn lemma_values_kept(a: Context, b: Context)
    requires
        a.wf(),
        b == (Context {
            inputs: (Inputs {
                symtab: (SymbolTable { syms: b.inputs.symtab.syms, ..a.inputs.symtab }),
                ..a.inputs
            }),
            ..a
        }),
        b.inputs.symtab.syms.len() == a.inputs.symtab.syms.len(),
        forall|i: int|
            0 <= i < b.inputs.symtab.syms.len() ==> #[trigger] b.inputs.symtab.syms[i] == (Symbol {
                value: b.inputs.symtab.syms[i].value,
                ..a.inputs.symtab.syms[i]
            }),
    ensures
        b.wf(),
        a.inputs.symtab.wf() ==> b.inputs.symtab.wf(),
{
    lemma_refs(a);
    let ta = a.inputs.symtab.state();
    let tb = b.inputs.symtab.state();
    assert forall|i: int| 0 <= i < tb.syms.len() implies (#[trigger] tb.syms[i]).refs_ok(
        b.inputs.isecs.len() as int,
        b.dylibs.len() as int,
        b.sym_aux.len() as int,
    ) by {
        assert(tb.syms[i] == b.inputs.symtab.syms[i]@);
        assert(ta.syms[i] == a.inputs.symtab.syms[i]@);
        assert(ta.syms[i].refs_ok(
            a.inputs.isecs.len() as int,
            a.dylibs.len() as int,
            a.sym_aux.len() as int,
        ));
    }
    lemma_wf_with_table(a, b);
    if a.inputs.symtab.wf() {
        crate::symbol::lemma_names_kept(a.inputs.symtab, b.inputs.symtab);
    }
}

/// The address of the entry point. `None` when nothing defines it.
pub open spec fn entry_of<E: Arch>(ctx: Context) -> Option<u64> {
    let ids = ctx.inputs.symtab.ids();
    let name = ctx.args.entry@;
    if ids.contains_key(name) && ctx.inputs.symtab.syms[ids[name] as int].has_definition() {
        Some(ctx.addr_of_sym::<E>(ids[name] as int))
    } else {
        None
    }
}

/// Finds the entry point of a program. False when nothing defines it; only
/// programs have one.
pub fn resolve_entry<E: Arch>(ctx: &mut Context) -> (r: bool)
    requires
        old(ctx).wf(),
        old(ctx).inputs.symtab.wf(),
    ensures
        ({
            let is_program = old(ctx).args.sw.output_type == MH_EXECUTE;
            let e = entry_of::<E>(*old(ctx));
            &&& r == (!is_program || e is Some)
            &&& *final(ctx) == (Context {
                layout: (Layout {
                    entry_addr: if is_program && e is Some {
                        e->Some_0
                    } else {
                        old(ctx).layout.entry_addr
                    },
                    ..old(ctx).layout
                }),
                ..*old(ctx)
            })
        }),
{
    if ctx.args.sw.output_type != MH_EXECUTE {
        return true;
    }
    match ctx.inputs.symtab.get(ctx.args.entry.as_slice()) {
        Some(id) => {
            assert(ctx.inputs.symtab.ids().contains_key(ctx.args.entry@));
            if ctx.inputs.symtab.syms[id as usize].is_defined() {
                let addr: u64 = ctx.sym_addr::<E>(id);
                ctx.layout.entry_addr = addr;
                true
            } else {
                false
            }
        },
        None => false,
    }
}

} // verus!
