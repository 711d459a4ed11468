//! Decides what becomes of symbols that nothing defines.
use crate::args::Args;
use crate::input_files::ObjectFile;
use crate::input_sections::UNSET;
use crate::inputs::Inputs;
use crate::macho::consts::N_UNDF;
use crate::macho::NList;
use crate::symbol::{Origin, SymFlags, Symbol, SymbolTable};
use crate::util::{bytes, text};
use vstd::prelude::*;

verus! {

/// True for a symbol that code needs and nothing defines.
pub open spec fn is_unresolved(s: Symbol) -> bool {
    s.flags.is_used && !s.has_definition()
}

/// True when a name may stay undefined until the image is loaded.
pub open spec fn may_stay_undefined(args: Args, name: Seq<u8>) -> bool {
    args.sw.undefined_dynamic_lookup || bytes::views(args.allowed_undefined@).contains(name)
}

/// A symbol after undefined ones were left to be looked up at load time,
/// where that is allowed.
pub open spec fn left_to_loader(args: Args, s: Symbol) -> Symbol {
    if is_unresolved(s) && may_stay_undefined(args, s.name@) {
        let t = s.with_origin(Origin::Dylib(UNSET));
        Symbol { flags: SymFlags { is_imported: true, is_extern: true, ..t.flags }, ..t }
    } else {
        s
    }
}

/// True when an object's entry refers to a symbol without defining it.
pub open spec fn is_reference(n: NList) -> bool {
    !n.stab() && n.external() && n.kind() == N_UNDF && !n.common()
}

/// True when one of an object's first `n` entries refers to a symbol.
pub open spec fn refers_to(o: ObjectFile, id: u32, n: int) -> bool {
    exists|k: int| 0 <= k < n && is_reference(#[trigger] o.nlists[k]) && o.syms[k] == id
}

/// The first live object, from the `o`th on, that refers to a symbol.
pub open spec fn wanted_by(objs: Seq<ObjectFile>, id: u32, o: int) -> Option<usize>
    decreases objs.len() - o,
{
    if o < 0 || o >= objs.len() {
        None
    } else if objs[o].is_alive && refers_to(objs[o], id, objs[o].nlists.len() as int) {
        Some(o as usize)
    } else {
        wanted_by(objs, id, o + 1)
    }
}

/// An undefined symbol.
#[derive(Clone, Copy, Debug, PartialEq, Eq, Structural)]
pub struct Undefined {
    pub sym: u32,
    /// An object that needs it, or `None` if only the linker does.
    pub wanted_by: Option<usize>,
}

/// The symbols among the first `n` that are undefined and must not be.
pub open spec fn errors_to(x: Inputs, args: Args, n: int) -> Seq<Undefined>
    decreases n,
{
    if n <= 0 {
        Seq::empty()
    } else {
        let s = x.symtab.syms[n - 1];
        if is_unresolved(s) && !may_stay_undefined(args, s.name@) {
            errors_to(x, args, n - 1).push(
                Undefined {
                    sym: (n - 1) as u32,
                    wanted_by: wanted_by(x.objs@, (n - 1) as u32, 0),
                },
            )
        } else {
            errors_to(x, args, n - 1)
        }
    }
}

/// The symbols among the first `n` that are left to the loader, with a
/// warning.
pub open spec fn warnings_to(syms: Seq<Symbol>, args: Args, n: int) -> Seq<u32>
    decreases n,
{
    if n <= 0 {
        Seq::empty()
    } else if args.sw.undefined_warning && is_unresolved(syms[n - 1]) && may_stay_undefined(
        args,
        syms[n - 1].name@,
    ) {
        warnings_to(syms, args, n - 1).push((n - 1) as u32)
    } else {
        warnings_to(syms, args, n - 1)
    }
}

fn check_reference(n: &NList) -> (r: bool)
    ensures
        r == is_reference(*n),
{
    !n.is_stab() && n.is_extern() && n.n_type() == N_UNDF && !n.is_common()
}

/// Finds the first live object that refers to a symbol.
pub fn find_wanted_by(objs: &Vec<ObjectFile>, id: u32) -> (r: Option<usize>)
    requires
        forall|o: int|
            0 <= o < objs.len() ==> (#[trigger] objs[o]).nlists.len() == objs[o].syms.len(),
    ensures
        r == wanted_by(objs@, id, 0),
{
    let mut o: usize = 0;
    while o < objs.len()
        invariant
            o <= objs.len(),
            forall|o: int|
                0 <= o < objs.len() ==> (#[trigger] objs[o]).nlists.len() == objs[o].syms.len(),
            wanted_by(objs@, id, o as int) == wanted_by(objs@, id, 0),
        decreases objs.len() - o,
    {
        let obj: &ObjectFile = &objs[o];
        if obj.is_alive {
            let mut k: usize = 0;
            while k < obj.nlists.len()
                invariant
                    k <= obj.nlists.len(),
                    o < objs.len(),
                    *obj == objs[o as int],
                    obj.is_alive,
                    obj.nlists.len() == obj.syms.len(),
                    !refers_to(*obj, id, k as int),
                    wanted_by(objs@, id, o as int) == wanted_by(objs@, id, 0),
                decreases obj.nlists.len() - k,
            {
                if check_reference(&obj.nlists[k]) && obj.syms[k] == id {
                    assert(is_reference(obj.nlists[k as int]));
                    assert(refers_to(*obj, id, obj.nlists.len() as int));
                    return Some(o);
                }
                assert(!refers_to(*obj, id, k + 1)) by {
                    if refers_to(*obj, id, k + 1) {
                        let j = choose|j: int|
                            0 <= j < k + 1 && is_reference(#[trigger] obj.nlists[j])
                                && obj.syms[j] == id;
                        if j < k {
                            assert(refers_to(*obj, id, k as int));
                        }
                    }
                }
                k += 1;
            }
        }
        o += 1;
    }
    None
}

/// What became of undefined symbols.
#[derive(Debug)]
pub struct UndefinedReport {
    /// The symbols that are left to the loader, with a warning.
    pub warnings: Vec<u32>,
    /// The symbols that must be defined, but are not.
    pub errors: Vec<Undefined>,
}

/// Reports undefined symbols, and leaves those to the loader that may stay
/// undefined.
pub fn check_undefined_symbols(args: &Args, x: &mut Inputs) -> (r: UndefinedReport)
    requires
        old(x).wf(),
    ensures
        *final(x) == (Inputs {
            symtab: (SymbolTable { syms: final(x).symtab.syms, ..old(x).symtab }),
            ..*old(x)
        }),
        final(x).symtab.syms@ == old(x).symtab.syms@.map_values(
            |s: Symbol| left_to_loader(*args, s),
        ),
        r.errors@ == errors_to(*old(x), *args, old(x).symtab.syms.len() as int),
        r.warnings@ == warnings_to(
            old(x).symtab.syms@,
            *args,
            old(x).symtab.syms.len() as int,
        ),
        final(x).wf(),
        old(x).symtab.wf() ==> final(x).symtab.wf(),
{
    let ghost start = *x;
    let ghost syms = start.symtab.syms@;
    proof {
        assert forall|o: int| 0 <= o < start.objs.len() implies (
        #[trigger] start.objs[o]).nlists.len() == start.objs[o].syms.len() by {
            assert(start.obj_ok(start.objs[o]));
        }
    }
    let mut warnings: Vec<u32> = Vec::new();
    let mut errors: Vec<Undefined> = Vec::new();
    let mut n: usize = 0;
    while n < x.symtab.syms.len()
        invariant
            n <= x.symtab.syms.len(),
            x.symtab.syms.len() == syms.len(),
            syms.len() < UNSET,
            start == *old(x),
            syms == start.symtab.syms@,
            *x == (Inputs {
                symtab: (SymbolTable { syms: x.symtab.syms, ..start.symtab }),
                ..start
            }),
            forall|o: int|
                0 <= o < x.objs.len() ==> (#[trigger] x.objs[o]).nlists.len()
                    == x.objs[o].syms.len(),
            forall|i: int|
                0 <= i < n ==> #[trigger] x.symtab.syms[i] == left_to_loader(*args, syms[i]),
            forall|i: int| n <= i < syms.len() ==> #[trigger] x.symtab.syms[i] == syms[i],
            errors@ == errors_to(start, *args, n as int),
            warnings@ == warnings_to(syms, *args, n as int),
        decreases x.symtab.syms.len() - n,
    {
        assert(x.symtab.syms[n as int] == syms[n as int]);
        if x.symtab.syms[n].flags.is_used && !x.symtab.syms[n].is_defined() {
            let allowed: bool = args.sw.undefined_dynamic_lookup || text::holds(
                &args.allowed_undefined,
                x.symtab.syms[n].name.as_slice(),
            );
            if allowed {
                if args.sw.undefined_warning {
                    warnings.push(n as u32);
                }
                x.symtab.syms[n].set_origin(Origin::Dylib(UNSET));
                x.symtab.syms[n].flags.is_imported = true;
                x.symtab.syms[n].flags.is_extern = true;
            } else {
                let wanted_by: Option<usize> = find_wanted_by(&x.objs, n as u32);
                errors.push(Undefined { sym: n as u32, wanted_by });
            }
        }
        n += 1;
    }
    proof {
        assert(x.symtab.syms@ =~= syms.map_values(|s: Symbol| left_to_loader(*args, s)));
        assert forall|i: int| 0 <= i < x.symtab.syms.len() implies x.sym_ok(
            #[trigger] x.symtab.syms[i],
        ) && x.symtab.syms[i].name@ == syms[i].name@ by {
            assert(start.sym_ok(start.symtab.syms[i]));
        }
        assert forall|i: int| 0 <= i < start.isecs.len() implies crate::inputs::same_part(
            start.isecs[i],
            #[trigger] x.isecs[i],
        ) && (x.isecs[i].replacement == crate::input_sections::NO_REPLACEMENT
            || x.isecs[i].replacement < x.isecs.len()) by {
            assert(start.isec_ok(start.isecs[i]));
        }
        crate::inputs::lemma_wf_grown(start, *x);
        if start.symtab.wf() {
            crate::symbol::lemma_names_kept(start.symtab, x.symtab);
        }
    }
    UndefinedReport { warnings, errors }
}

proof fn lemma_no_errors(x: Inputs, args: Args, n: int, i: int)
    requires
        0 <= i < n <= x.symtab.syms.len(),
        errors_to(x, args, n).len() == 0,
    ensures
        is_unresolved(x.symtab.syms[i]) ==> may_stay_undefined(args, x.symtab.syms[i].name@),
    decreases n,
{
    if i < n - 1 {
        lemma_no_errors(x, args, n - 1, i);
    }
}

/// Without errors, every symbol that code needs has a definition once
/// undefined ones were left to the loader.
pub proof fn lemma_all_defined(x: Inputs, args: Args, i: int)
    requires
        0 <= i < x.symtab.syms.len(),
        errors_to(x, args, x.symtab.syms.len() as int).len() == 0,
    ensures
        !is_unresolved(left_to_loader(args, x.symtab.syms[i])),
{
    lemma_no_errors(x, args, x.symtab.syms.len() as int, i);
}

} // verus!
