//! The lines that -print_dependencies, -t, -why_load and -why_live print.
use crate::args::Args;
use crate::input_files::{DylibFile, ObjectFile};
use crate::input_sections::UNSET;
use crate::inputs::{resolve_isec, Inputs};
use crate::macho::consts::N_UNDF;
use crate::symbol::{Origin, Symbol};
use crate::util::{bytes, glob, graph, text};
use vstd::prelude::*;
use vstd::string::*;

verus! {

/// The file that defines a symbol which the `o`th object refers to, unless
/// it is that object.
pub open spec fn provider_of(
    objs: Seq<ObjectFile>,
    dylibs: Seq<DylibFile>,
    s: Symbol,
    o: int,
) -> Option<Seq<u8>> {
    match s.defined_by() {
        Origin::Obj(p) => if p < objs.len() && p != o && objs[p as int].is_alive {
            Some(objs[p as int].name@)
        } else {
            None
        },
        Origin::Dylib(d) => if d != UNSET && d < dylibs.len() {
            Some(dylibs[d as int].install_name@)
        } else {
            None
        },
        _ => None,
    }
}

/// The line that says which file satisfied a reference.
pub open spec fn dependency_line(from: Seq<u8>, to: Seq<u8>, name: Seq<u8>) -> Seq<u8> {
    from + seq![9u8] + to + seq![9u8, 0x75, 9] + name
}

/// The lines of the first `k` entries of the `o`th object.
pub open spec fn object_dependencies(x: Inputs, dylibs: Seq<DylibFile>, o: int, k: int) -> Seq<
    Seq<u8>,
>
    decreases k,
{
    if k <= 0 {
        Seq::empty()
    } else {
        let before = object_dependencies(x, dylibs, o, k - 1);
        let s = x.symtab.syms[x.objs[o].syms[k - 1] as int];
        match provider_of(x.objs@, dylibs, s, o) {
            Some(p) => if super::undefined::is_reference(x.objs[o].nlists[k - 1]) {
                before.push(dependency_line(x.objs[o].name@, p, s.name@))
            } else {
                before
            },
            None => before,
        }
    }
}

/// The lines of the first `n` objects, as far as they are live.
pub open spec fn dependencies_to(x: Inputs, dylibs: Seq<DylibFile>, n: int) -> Seq<Seq<u8>>
    decreases n,
{
    if n <= 0 {
        Seq::empty()
    } else if x.objs[n - 1].is_alive {
        dependencies_to(x, dylibs, n - 1) + object_dependencies(
            x,
            dylibs,
            n - 1,
            x.objs[n - 1].nlists.len() as int,
        )
    } else {
        dependencies_to(x, dylibs, n - 1)
    }
}

fn find_provider(objs: &Vec<ObjectFile>, dylibs: &Vec<DylibFile>, s: &Symbol, o: usize) -> (r:
    Option<Vec<u8>>)
    ensures
        match r {
            Some(p) => provider_of(objs@, dylibs@, *s, o as int) == Some(p@),
            None => provider_of(objs@, dylibs@, *s, o as int) is None,
        },
{
    match s.origin() {
        Origin::Obj(p) => {
            let p: usize = p as usize;
            if p < objs.len() && p != o && objs[p].is_alive {
                Some(bytes::to_vec(objs[p].name.as_slice()))
            } else {
                None
            }
        },
        Origin::Dylib(d) => {
            if d != UNSET && (d as usize) < dylibs.len() {
                Some(bytes::to_vec(dylibs[d as usize].install_name.as_slice()))
            } else {
                None
            }
        },
        _ => None,
    }
}

fn make_dependency_line(from: &[u8], to: &[u8], name: &[u8]) -> (r: Vec<u8>)
    ensures
        r@ == dependency_line(from@, to@, name@),
{
    let mut r: Vec<u8> = bytes::to_vec(from);
    r.push(9);
    bytes::append(&mut r, to);
    r.push(9);
    r.push(0x75);
    r.push(9);
    bytes::append(&mut r, name);
    assert(r@ =~= dependency_line(from@, to@, name@));
    r
}

/// Lists, for every undefined symbol of every live object, which file's
/// definition satisfied it.
pub fn print_dependencies(x: &Inputs, dylibs: &Vec<DylibFile>) -> (r: Vec<Vec<u8>>)
    requires
        x.wf(),
    ensures
        bytes::views(r@) == dependencies_to(*x, dylibs@, x.objs.len() as int),
{
    let mut r: Vec<Vec<u8>> = Vec::new();
    assert(bytes::views(r@) =~= Seq::empty());
    let mut o: usize = 0;
    while o < x.objs.len()
        invariant
            o <= x.objs.len(),
            x.wf(),
            bytes::views(r@) == dependencies_to(*x, dylibs@, o as int),
        decreases x.objs.len() - o,
    {
        let obj: &ObjectFile = &x.objs[o];
        assert(x.obj_ok(*obj));
        if obj.is_alive {
            let ghost start = bytes::views(r@);
            assert(start + Seq::<Seq<u8>>::empty() =~= start);
            let mut k: usize = 0;
            while k < obj.nlists.len()
                invariant
                    k <= obj.nlists.len(),
                    o < x.objs.len(),
                    *obj == x.objs[o as int],
                    x.obj_ok(*obj),
                    bytes::views(r@) == start + object_dependencies(
                        *x,
                        dylibs@,
                        o as int,
                        k as int,
                    ),
                decreases obj.nlists.len() - k,
            {
                let ghost head = object_dependencies(*x, dylibs@, o as int, k as int);
                let n = &obj.nlists[k];
                let s: &Symbol = &x.symtab.syms[obj.syms[k] as usize];
                if !n.is_stab() && n.is_extern() && n.n_type() == N_UNDF && !n.is_common() {
                    if let Some(p) = find_provider(&x.objs, dylibs, s, o) {
                        let l: Vec<u8> = make_dependency_line(
                            obj.name.as_slice(),
                            p.as_slice(),
                            s.name.as_slice(),
                        );
                        let ghost lv = l@;
                        text::push_name(&mut r, l);
                        assert((start + head).push(lv) =~= start + head.push(lv));
                    }
                }
                k += 1;
            }
        }
        o += 1;
    }
    r
}

/// The names of the live ones among the first `n` objects.
pub open spec fn live_names(objs: Seq<ObjectFile>, n: int) -> Seq<Seq<u8>>
    decreases n,
{
    if n <= 0 {
        Seq::empty()
    } else if objs[n - 1].is_alive {
        live_names(objs, n - 1).push(objs[n - 1].name@)
    } else {
        live_names(objs, n - 1)
    }
}

/// Lists the files that take part in the link: the live objects, then the
/// libraries.
pub fn print_trace(objs: &Vec<ObjectFile>, dylibs: &Vec<DylibFile>) -> (r: Vec<Vec<u8>>)
    ensures
        bytes::views(r@) == live_names(objs@, objs.len() as int) + dylibs@.map_values(
            |d: DylibFile| d.path@,
        ),
{
    let mut r: Vec<Vec<u8>> = Vec::new();
    assert(bytes::views(r@) =~= Seq::empty());
    let mut o: usize = 0;
    while o < objs.len()
        invariant
            o <= objs.len(),
            bytes::views(r@) == live_names(objs@, o as int),
        decreases objs.len() - o,
    {
        if objs[o].is_alive {
            text::push_name(&mut r, bytes::to_vec(objs[o].name.as_slice()));
        }
        o += 1;
    }
    let ghost start = bytes::views(r@);
    let ghost paths = dylibs@.map_values(|d: DylibFile| d.path@);
    assert(start + paths.take(0) =~= start);
    let mut d: usize = 0;
    while d < dylibs.len()
        invariant
            d <= dylibs.len(),
            paths == dylibs@.map_values(|d: DylibFile| d.path@),
            bytes::views(r@) == start + paths.take(d as int),
        decreases dylibs.len() - d,
    {
        text::push_name(&mut r, bytes::to_vec(dylibs[d].path.as_slice()));
        assert(start + paths.take(d + 1) =~= (start + paths.take(d as int)).push(
            paths[d as int],
        ));
        d += 1;
    }
    assert(paths.take(d as int) =~= paths);
    r
}

/// The first root symbol, from the `k`th on, that the `o`th object defines.
pub open spec fn root_reason(syms: Seq<Symbol>, roots: Seq<u32>, o: int, k: int) -> Option<u32>
    decreases roots.len() - k,
{
    if k < 0 || k >= roots.len() {
        None
    } else if syms[roots[k] as int].defined_by() == Origin::Obj(o as u32) {
        Some(roots[k])
    } else {
        root_reason(syms, roots, o, k + 1)
    }
}

/// The first symbol, from the `k`th entry of the object `p` on, that it
/// needs and the `o`th object defines.
pub open spec fn need_reason(x: Inputs, p: int, o: int, k: int) -> Option<u32>
    decreases x.objs[p].nlists.len() - k,
{
    if k < 0 || k >= x.objs[p].nlists.len() {
        None
    } else {
        let n = x.objs[p].nlists[k];
        let id = x.objs[p].syms[k];
        if !n.stab() && n.external() && n.kind() == N_UNDF && x.symtab.syms[id as int].defined_by()
            == Origin::Obj(o as u32) {
            Some(id)
        } else {
            need_reason(x, p, o, k + 1)
        }
    }
}

/// The symbol for which an object was loaded, if it was not loaded
/// unconditionally. `found` says from which object the walk reached it.
pub open spec fn load_reason(x: Inputs, roots: Seq<u32>, always: bool, found: usize, o: int) -> Option<
    u32,
> {
    if always {
        None
    } else if found < x.objs.len() {
        need_reason(x, found as int, o, 0)
    } else {
        root_reason(x.symtab.syms@, roots, o, 0)
    }
}

/// The line that says why an archive member was loaded.
pub open spec fn load_line(x: Inputs, reason: Option<u32>, name: Seq<u8>) -> Seq<u8> {
    match reason {
        Some(id) => x.symtab.syms[id as int].name@ + " forced load of ".spec_bytes() + name,
        None => "-all_load or -force_load forced load of ".spec_bytes() + name,
    }
}

/// The lines of the live archive members among the first `n` objects.
pub open spec fn loads_to(
    x: Inputs,
    roots: Seq<u32>,
    always: Seq<bool>,
    found: Seq<usize>,
    n: int,
) -> Seq<Seq<u8>>
    decreases n,
{
    if n <= 0 {
        Seq::empty()
    } else {
        let before = loads_to(x, roots, always, found, n - 1);
        let o = x.objs[n - 1];
        if o.is_alive && o.parent is Some {
            before.push(
                load_line(x, load_reason(x, roots, always[n - 1], found[n - 1], n - 1), o.name@),
            )
        } else {
            before
        }
    }
}

fn find_root_reason(syms: &Vec<Symbol>, roots: &Vec<u32>, o: u32) -> (r: Option<u32>)
    requires
        forall|k: int| 0 <= k < roots.len() ==> (#[trigger] roots[k]) < syms.len(),
    ensures
        r == root_reason(syms@, roots@, o as int, 0),
        r matches Some(id) ==> id < syms.len(),
{
    let mut k: usize = 0;
    while k < roots.len()
        invariant
            k <= roots.len(),
            forall|k: int| 0 <= k < roots.len() ==> (#[trigger] roots[k]) < syms.len(),
            root_reason(syms@, roots@, o as int, k as int) == root_reason(
                syms@,
                roots@,
                o as int,
                0,
            ),
        decreases roots.len() - k,
    {
        if syms[roots[k] as usize].origin() == Origin::Obj(o) {
            return Some(roots[k]);
        }
        k += 1;
    }
    None
}

fn find_need_reason(x: &Inputs, p: usize, o: u32) -> (r: Option<u32>)
    requires
        x.wf(),
        p < x.objs.len(),
    ensures
        r == need_reason(*x, p as int, o as int, 0),
        r matches Some(id) ==> id < x.symtab.syms.len(),
{
    let obj: &ObjectFile = &x.objs[p];
    assert(x.obj_ok(*obj));
    let mut k: usize = 0;
    while k < obj.nlists.len()
        invariant
            k <= obj.nlists.len(),
            p < x.objs.len(),
            *obj == x.objs[p as int],
            x.obj_ok(*obj),
            need_reason(*x, p as int, o as int, k as int) == need_reason(
                *x,
                p as int,
                o as int,
                0,
            ),
        decreases obj.nlists.len() - k,
    {
        let n = &obj.nlists[k];
        let id: u32 = obj.syms[k];
        if !n.is_stab() && n.is_extern() && n.n_type() == N_UNDF
            && x.symtab.syms[id as usize].origin() == Origin::Obj(o) {
            return Some(id);
        }
        k += 1;
    }
    None
}

fn make_load_line(x: &Inputs, reason: Option<u32>, name: &[u8]) -> (r: Vec<u8>)
    requires
        reason matches Some(id) ==> id < x.symtab.syms.len(),
    ensures
        r@ == load_line(*x, reason, name@),
{
    let mut r: Vec<u8> = Vec::new();
    match reason {
        Some(id) => {
            bytes::append(&mut r, x.symtab.syms[id as usize].name.as_slice());
            bytes::append(&mut r, " forced load of ".as_bytes());
        },
        None => {
            bytes::append(&mut r, "-all_load or -force_load forced load of ".as_bytes());
        },
    }
    bytes::append(&mut r, name);
    assert(r@ =~= load_line(*x, reason, name@));
    r
}

/// Says of each live archive member what brought it into the link: a symbol
/// that a live object or the command line needed, or an option.
pub fn print_why_load(
    x: &Inputs,
    roots: &Vec<u32>,
    always: &Vec<bool>,
    found: &Vec<usize>,
) -> (r: Vec<Vec<u8>>)
    requires
        x.wf(),
        forall|k: int| 0 <= k < roots.len() ==> (#[trigger] roots[k]) < x.symtab.syms.len(),
        always.len() == x.objs.len(),
        found.len() == x.objs.len(),
    ensures
        bytes::views(r@) == loads_to(*x, roots@, always@, found@, x.objs.len() as int),
{
    let mut r: Vec<Vec<u8>> = Vec::new();
    assert(bytes::views(r@) =~= Seq::empty());
    let mut o: usize = 0;
    while o < x.objs.len()
        invariant
            o <= x.objs.len(),
            x.wf(),
            forall|k: int| 0 <= k < roots.len() ==> (#[trigger] roots[k]) < x.symtab.syms.len(),
            always.len() == x.objs.len(),
            found.len() == x.objs.len(),
            bytes::views(r@) == loads_to(*x, roots@, always@, found@, o as int),
        decreases x.objs.len() - o,
    {
        let obj: &ObjectFile = &x.objs[o];
        if obj.is_alive && obj.parent.is_some() {
            let reason: Option<u32> = if always[o] {
                None
            } else if found[o] < x.objs.len() {
                find_need_reason(x, found[o], o as u32)
            } else {
                find_root_reason(&x.symtab.syms, roots, o as u32)
            };
            text::push_name(&mut r, make_load_line(x, reason, obj.name.as_slice()));
        }
        o += 1;
    }
    r
}

/// True for a symbol that can stand for a subsection: a named one that an
/// object defines there.
pub open spec fn stands_for(x: Inputs, s: Symbol, isec: int) -> bool {
    match (s.defined_by(), s.section()) {
        (Origin::Obj(_), Some(i)) => s.name.len() > 0 && crate::inputs::survivor(
            x.isecs@,
            i as int,
        ) == isec,
        _ => false,
    }
}

/// The name by which a subsection is reported, among the first `n` symbols:
/// that of the last external symbol at its start, else of the first symbol.
pub open spec fn shown_name(x: Inputs, isec: int, n: int) -> Option<Seq<u8>>
    decreases n,
{
    if n <= 0 {
        None
    } else {
        let before = shown_name(x, isec, n - 1);
        let s = x.symtab.syms[n - 1];
        if stands_for(x, s, isec) && (before is None || (s.flags.is_extern && s.value == 0)) {
            Some(s.name@)
        } else {
            before
        }
    }
}

/// A name with the file that it is from.
pub open spec fn with_file(x: Inputs, name: Seq<u8>, isec: int) -> Seq<u8> {
    let s = x.isecs[isec];
    if s.obj == UNSET {
        name
    } else {
        name + " from ".spec_bytes() + x.objs[s.obj as int].name@
    }
}

/// How a subsection is reported: by a symbol's name, or by its section's.
pub open spec fn description(x: Inputs, isec: int) -> Seq<u8> {
    with_file(
        x,
        match shown_name(x, isec, x.symtab.syms.len() as int) {
            Some(name) => name,
            None => {
                let h = x.header(x.isecs[isec]);
                h.segname + seq![0x2cu8] + h.sectname
            },
        },
        isec,
    )
}

/// The lines of the references that keep a subsection alive, each indented
/// more than the one before, up to a root.
pub open spec fn chain(x: Inputs, pred: Seq<usize>, isec: int, depth: int, left: nat) -> Seq<
    Seq<u8>,
>
    decreases left,
{
    if left == 0 || pred[isec] >= x.isecs.len() {
        Seq::empty()
    } else {
        let p = pred[isec] as int;
        seq![Seq::new((2 * depth) as nat, |i: int| 0x20u8) + description(x, p)] + chain(
            x,
            pred,
            p,
            depth + 1,
            (left - 1) as nat,
        )
    }
}

/// The lines about one symbol: itself, and what keeps it alive.
pub open spec fn why_live_of(
    x: Inputs,
    patterns: Seq<Seq<u8>>,
    live: Seq<bool>,
    pred: Seq<usize>,
    s: Symbol,
) -> Seq<Seq<u8>> {
    match (s.defined_by(), s.section()) {
        (Origin::Obj(_), Some(i)) => {
            let isec = crate::inputs::survivor(x.isecs@, i as int);
            if glob::any_matches(patterns, s.name@) && live[isec] {
                seq![with_file(x, s.name@, isec)] + chain(
                    x,
                    pred,
                    isec,
                    1,
                    x.isecs.len() as nat,
                )
            } else {
                Seq::empty()
            }
        },
        _ => Seq::empty(),
    }
}

/// The lines about the first `n` symbols.
pub open spec fn why_live_to(
    x: Inputs,
    patterns: Seq<Seq<u8>>,
    live: Seq<bool>,
    pred: Seq<usize>,
    n: int,
) -> Seq<Seq<u8>>
    decreases n,
{
    if n <= 0 {
        Seq::empty()
    } else {
        why_live_to(x, patterns, live, pred, n - 1) + why_live_of(
            x,
            patterns,
            live,
            pred,
            x.symtab.syms[n - 1],
        )
    }
}

fn find_shown_name(x: &Inputs, isec: usize) -> (r: Option<Vec<u8>>)
    requires
        x.wf(),
    ensures
        match r {
            Some(name) => shown_name(*x, isec as int, x.symtab.syms.len() as int) == Some(name@),
            None => shown_name(*x, isec as int, x.symtab.syms.len() as int) is None,
        },
{
    proof {
        crate::inputs::lemma_wf_redirects(*x);
    }
    let mut r: Option<Vec<u8>> = None;
    let mut n: usize = 0;
    while n < x.symtab.syms.len()
        invariant
            n <= x.symtab.syms.len(),
            x.wf(),
            crate::inputs::redirects_exist(x.isecs@),
            match r {
                Some(name) => shown_name(*x, isec as int, n as int) == Some(name@),
                None => shown_name(*x, isec as int, n as int) is None,
            },
        decreases x.symtab.syms.len() - n,
    {
        let s: &Symbol = &x.symtab.syms[n];
        assert(x.sym_ok(*s));
        if let Origin::Obj(_) = s.origin() {
            if let Some(i) = s.isec() {
                if s.name.len() > 0 && resolve_isec(&x.isecs, i as usize) == isec {
                    if r.is_none() || (s.flags.is_extern && s.value == 0) {
                        r = Some(bytes::to_vec(s.name.as_slice()));
                    }
                }
            }
        }
        n += 1;
    }
    r
}

fn push_with_file(x: &Inputs, name: &[u8], isec: usize, buf: &mut Vec<u8>)
    requires
        x.wf(),
        isec < x.isecs.len(),
    ensures
        final(buf)@ == old(buf)@ + with_file(*x, name@, isec as int),
{
    let ghost before = buf@;
    assert(x.isec_ok(x.isecs[isec as int]));
    bytes::append(buf, name);
    let obj: u32 = x.isecs[isec].obj;
    if obj != UNSET {
        bytes::append(buf, " from ".as_bytes());
        bytes::append(buf, x.objs[obj as usize].name.as_slice());
    }
    assert(buf@ =~= before + with_file(*x, name@, isec as int));
}

fn push_description(x: &Inputs, isec: usize, buf: &mut Vec<u8>)
    requires
        x.wf(),
        isec < x.isecs.len(),
    ensures
        final(buf)@ == old(buf)@ + description(*x, isec as int),
{
    match find_shown_name(x, isec) {
        Some(name) => push_with_file(x, name.as_slice(), isec, buf),
        None => {
            let h = x.hdr_of(isec);
            let mut name: Vec<u8> = bytes::to_vec(h.segname.as_slice());
            name.push(0x2c);
            bytes::append(&mut name, h.sectname.as_slice());
            assert(name@ =~= h@.segname + seq![0x2cu8] + h@.sectname);
            push_with_file(x, name.as_slice(), isec, buf);
        },
    }
}

fn make_indented(x: &Inputs, isec: usize, depth: usize) -> (r: Vec<u8>)
    requires
        x.wf(),
        isec < x.isecs.len(),
    ensures
        r@ == Seq::new((2 * depth) as nat, |i: int| 0x20u8) + description(*x, isec as int),
{
    let ghost indent = Seq::new((2 * depth) as nat, |i: int| 0x20u8);
    let mut r: Vec<u8> = Vec::new();
    let mut k: usize = 0;
    while k < depth
        invariant
            k <= depth,
            r@ == Seq::new((2 * k) as nat, |i: int| 0x20u8),
        decreases depth - k,
    {
        r.push(0x20);
        r.push(0x20);
        k += 1;
        assert(r@ =~= Seq::new((2 * k) as nat, |i: int| 0x20u8));
    }
    push_description(x, isec, &mut r);
    r
}

fn push_chain(x: &Inputs, pred: &Vec<usize>, isec: usize, out: &mut Vec<Vec<u8>>)
    requires
        x.wf(),
        isec < x.isecs.len(),
        pred.len() == x.isecs.len(),
    ensures
        bytes::views(final(out)@) == bytes::views(old(out)@) + chain(
            *x,
            pred@,
            isec as int,
            1,
            x.isecs.len() as nat,
        ),
{
    let ghost start = bytes::views(out@);
    let ghost goal = start + chain(*x, pred@, isec as int, 1, x.isecs.len() as nat);
    let mut at: usize = isec;
    let mut left: usize = x.isecs.len();
    let mut depth: usize = 1;
    while left > 0 && pred[at] < x.isecs.len()
        invariant
            x.wf(),
            at < x.isecs.len(),
            pred.len() == x.isecs.len(),
            left <= x.isecs.len(),
            depth + left == x.isecs.len() + 1,
            bytes::views(out@) + chain(*x, pred@, at as int, depth as int, left as nat) == goal,
        decreases left,
    {
        let p: usize = pred[at];
        let ghost before = bytes::views(out@);
        let l: Vec<u8> = make_indented(x, p, depth);
        let ghost lv = l@;
        text::push_name(out, l);
        let ghost rest = chain(*x, pred@, p as int, depth + 1, (left - 1) as nat);
        assert(before + (seq![lv] + rest) =~= before.push(lv) + rest);
        at = p;
        left -= 1;
        depth += 1;
    }
    assert(bytes::views(out@) + Seq::<Seq<u8>>::empty() =~= bytes::views(out@));
}

/// Says of each live symbol that a -why_live pattern fits which references
/// kept it alive: the liveness walk read backwards, up to a root.
pub fn print_why_live(args: &Args, x: &Inputs, w: &graph::Walk) -> (r: Vec<Vec<u8>>)
    requires
        x.wf(),
        w.live.len() == x.isecs.len(),
        w.pred.len() == x.isecs.len(),
    ensures
        bytes::views(r@) == why_live_to(
            *x,
            bytes::views(args.why_live@),
            w.live@,
            w.pred@,
            x.symtab.syms.len() as int,
        ),
{
    let ghost pv = bytes::views(args.why_live@);
    proof {
        crate::inputs::lemma_wf_redirects(*x);
    }
    let mut r: Vec<Vec<u8>> = Vec::new();
    assert(bytes::views(r@) =~= Seq::empty());
    let mut n: usize = 0;
    while n < x.symtab.syms.len()
        invariant
            n <= x.symtab.syms.len(),
            x.wf(),
            crate::inputs::redirects_exist(x.isecs@),
            w.live.len() == x.isecs.len(),
            w.pred.len() == x.isecs.len(),
            pv == bytes::views(args.why_live@),
            bytes::views(r@) == why_live_to(*x, pv, w.live@, w.pred@, n as int),
        decreases x.symtab.syms.len() - n,
    {
        let ghost start = bytes::views(r@);
        assert(start + Seq::<Seq<u8>>::empty() =~= start);
        let s: &Symbol = &x.symtab.syms[n];
        assert(x.sym_ok(*s));
        if let Origin::Obj(_) = s.origin() {
            if let Some(i) = s.isec() {
                let isec: usize = resolve_isec(&x.isecs, i as usize);
                if glob::match_any(&args.why_live, s.name.as_slice()) && w.live[isec] {
                    let mut l: Vec<u8> = Vec::new();
                    push_with_file(x, s.name.as_slice(), isec, &mut l);
                    let ghost lv = l@;
                    assert(lv =~= with_file(*x, s.name@, isec as int));
                    text::push_name(&mut r, l);
                    push_chain(x, &w.pred, isec, &mut r);
                    let ghost rest = chain(
                        *x,
                        w.pred@,
                        isec as int,
                        1,
                        x.isecs.len() as nat,
                    );
                    assert(start.push(lv) + rest =~= start + (seq![lv] + rest));
                }
            }
        }
        n += 1;
    }
    r
}

} // verus!
