//! The linker directives of stub files, and the registration of libraries.
use super::dylib::{find_last_slash, strip_prefix};
use super::DylibFile;
use crate::args::Args;
use crate::tapi::{parse_version, TbdFile};
use crate::util::{bytes, text};
use vstd::prelude::*;
use vstd::string::*;

verus! {

/// What the linker directives among a stub's exports change.
#[derive(Debug)]
pub struct Directives {
    pub added: Vec<Vec<u8>>,
    pub hidden: Vec<Vec<u8>>,
    pub install_name: Option<Vec<u8>>,
}

/// What the linker directives change, as mathematical values.
#[verifier::ext_equal]
pub struct DirectivesView {
    pub added: Seq<Seq<u8>>,
    pub hidden: Seq<Seq<u8>>,
    pub install_name: Option<Seq<u8>>,
}

impl View for Directives {
    type V = DirectivesView;

    open spec fn view(&self) -> DirectivesView {
        DirectivesView {
            added: bytes::views(self.added@),
            hidden: bytes::views(self.hidden@),
            install_name: super::dylib::opt_name(self.install_name),
        }
    }
}

/// The parts in front of and behind the first dollar sign.
pub open spec fn at_dollar(s: Seq<u8>) -> Option<(Seq<u8>, Seq<u8>)> {
    let i = bytes::index_of_byte(s, 36, 0);
    if i >= s.len() {
        None
    } else {
        Some((s.take(i), s.skip(i + 1)))
    }
}

fn split_dollar(s: &[u8]) -> (r: Option<(Vec<u8>, Vec<u8>)>)
    ensures
        match r {
            Some(p) => at_dollar(s@) == Some((p.0@, p.1@)),
            None => at_dollar(s@) is None,
        },
{
    let i: usize = bytes::find_byte(s, 36, 0);
    if i >= s.len() {
        return None;
    }
    let a: Vec<u8> = bytes::copy_range(s, 0, i);
    let b: Vec<u8> = bytes::copy_range(s, i + 1, s.len());
    assert(a@ =~= s@.take(i as int));
    assert(b@ =~= s@.skip(i + 1));
    Some((a, b))
}

/// What a directive for one version says, if it is for the target's: the
/// part behind the version.
pub open spec fn for_version(rest: Seq<u8>, minos: u32) -> Option<Seq<u8>> {
    match at_dollar(rest) {
        Some(p) => if crate::tapi::lenient_version(p.0) == minos {
            Some(p.1)
        } else {
            None
        },
        None => None,
    }
}

fn match_version(rest: &[u8], minos: u32) -> (r: Option<Vec<u8>>)
    ensures
        match r {
            Some(v) => for_version(rest@, minos) == Some(v@),
            None => for_version(rest@, minos) is None,
        },
{
    match split_dollar(rest) {
        Some((ver, tail)) => {
            if parse_version(ver.as_slice()) == minos {
                Some(tail)
            } else {
                None
            }
        },
        None => None,
    }
}

/// The install name that a "previous" directive gives, if it is for the
/// target: name, compatibility version, platform, first version, version
/// behind the last, and an empty symbol.
pub open spec fn previous_name(rest: Seq<u8>, platform: u32, minos: u32) -> Option<Seq<u8>> {
    let f = text::split(rest, 36);
    if f.len() >= 6 && f[5].len() == 0 && text::parsed(f[2], 10, u32::MAX as int) == Some(
        platform as int,
    ) && crate::tapi::lenient_version(f[3]) <= minos && minos < crate::tapi::lenient_version(f[4]) {
        Some(f[0])
    } else {
        None
    }
}

fn match_previous(rest: &[u8], platform: u32, minos: u32) -> (r: Option<Vec<u8>>)
    ensures
        match r {
            Some(v) => previous_name(rest@, platform, minos) == Some(v@),
            None => previous_name(rest@, platform, minos) is None,
        },
{
    let f: Vec<Vec<u8>> = text::split_at(rest, 36);
    let ghost fv = bytes::views(f@);
    assert(fv.len() == f.len());
    if f.len() < 6 {
        return None;
    }
    assert(fv[0] == f[0]@ && fv[2] == f[2]@ && fv[3] == f[3]@ && fv[4] == f[4]@ && fv[5] == f[5]@);
    if f[5].len() != 0 {
        return None;
    }
    let on: bool = match text::parse_number(f[2].as_slice(), 10, 0xffff_ffff) {
        Some(n) => n == platform as u64,
        None => false,
    };
    if on && parse_version(f[3].as_slice()) <= minos && minos < parse_version(f[4].as_slice()) {
        Some(bytes::to_vec(f[0].as_slice()))
    } else {
        None
    }
}

/// What is known after one more export name.
pub open spec fn with_directive(d: DirectivesView, name: Seq<u8>, platform: u32, minos: u32) -> DirectivesView {
    match super::dylib::behind(name, "$ld$previous$".spec_bytes()) {
        Some(rest) => match previous_name(rest, platform, minos) {
            Some(n) => DirectivesView { install_name: Some(n), ..d },
            None => d,
        },
        None => match super::dylib::behind(name, "$ld$add$os".spec_bytes()) {
            Some(rest) => match for_version(rest, minos) {
                Some(s) => DirectivesView { added: d.added.push(s), ..d },
                None => d,
            },
            None => match super::dylib::behind(name, "$ld$hide$os".spec_bytes()) {
                Some(rest) => match for_version(rest, minos) {
                    Some(s) => DirectivesView { hidden: d.hidden.push(s), ..d },
                    None => d,
                },
                None => match super::dylib::behind(name, "$ld$install_name$os".spec_bytes()) {
                    Some(rest) => match for_version(rest, minos) {
                        Some(s) => DirectivesView { install_name: Some(s), ..d },
                        None => d,
                    },
                    None => d,
                },
            },
        },
    }
}

/// What the first `n` export names say.
pub open spec fn directives_to(names: Seq<Seq<u8>>, platform: u32, minos: u32, n: int) -> DirectivesView
    decreases n,
{
    if n <= 0 {
        DirectivesView { added: Seq::empty(), hidden: Seq::empty(), install_name: None }
    } else {
        with_directive(
            directives_to(names, platform, minos, n - 1),
            names[n - 1],
            platform,
            minos,
        )
    }
}

fn read_directive(d: &mut Directives, name: &[u8], platform: u32, minos: u32)
    ensures
        final(d)@ == with_directive(old(d)@, name@, platform, minos),
{
    let ghost before = d@;
    if let Some(rest) = strip_prefix(name, "$ld$previous$".as_bytes()) {
        if let Some(n) = match_previous(rest.as_slice(), platform, minos) {
            d.install_name = Some(n);
        }
        assert(d@ =~= with_directive(before, name@, platform, minos));
        return ;
    }
    if let Some(rest) = strip_prefix(name, "$ld$add$os".as_bytes()) {
        if let Some(s) = match_version(rest.as_slice(), minos) {
            text::push_name(&mut d.added, s);
        }
        assert(d@ =~= with_directive(before, name@, platform, minos));
        return ;
    }
    if let Some(rest) = strip_prefix(name, "$ld$hide$os".as_bytes()) {
        if let Some(s) = match_version(rest.as_slice(), minos) {
            text::push_name(&mut d.hidden, s);
        }
        assert(d@ =~= with_directive(before, name@, platform, minos));
        return ;
    }
    if let Some(rest) = strip_prefix(name, "$ld$install_name$os".as_bytes()) {
        if let Some(s) = match_version(rest.as_slice(), minos) {
            d.install_name = Some(s);
        }
        assert(d@ =~= with_directive(before, name@, platform, minos));
    }
}

fn read_directives(names: &Vec<Vec<u8>>, platform: u32, minos: u32) -> (d: Directives)
    ensures
        d@ == directives_to(bytes::views(names@), platform, minos, names.len() as int),
{
    let ghost nv = bytes::views(names@);
    let mut d = Directives { added: Vec::new(), hidden: Vec::new(), install_name: None };
    assert(d@ =~= directives_to(nv, platform, minos, 0));
    let mut n: usize = 0;
    while n < names.len()
        invariant
            n <= names.len(),
            nv == bytes::views(names@),
            d@ == directives_to(nv, platform, minos, n as int),
        decreases names.len() - n,
    {
        assert(nv[n as int] == names[n as int]@);
        read_directive(&mut d, names[n].as_slice(), platform, minos);
        n += 1;
    }
    d
}

/// The first `n` names without those that are hidden and, where asked for,
/// those that are directives.
pub open spec fn visible(names: Seq<Seq<u8>>, hidden: Seq<Seq<u8>>, drop_directives: bool, n: int) -> Seq<
    Seq<u8>,
>
    decreases n,
{
    if n <= 0 {
        Seq::empty()
    } else {
        let before = visible(names, hidden, drop_directives, n - 1);
        if hidden.contains(names[n - 1]) || (drop_directives && bytes::has_prefix(
            names[n - 1],
            "$ld$".spec_bytes(),
        )) {
            before
        } else {
            before.push(names[n - 1])
        }
    }
}

fn keep_visible(names: &Vec<Vec<u8>>, hidden: &Vec<Vec<u8>>, drop_directives: bool) -> (r: Vec<
    Vec<u8>,
>)
    ensures
        bytes::views(r@) == visible(
            bytes::views(names@),
            bytes::views(hidden@),
            drop_directives,
            names.len() as int,
        ),
{
    let ghost nv = bytes::views(names@);
    let ghost hv = bytes::views(hidden@);
    let mut r: Vec<Vec<u8>> = Vec::new();
    assert(bytes::views(r@) =~= Seq::empty());
    let mut n: usize = 0;
    while n < names.len()
        invariant
            n <= names.len(),
            nv == bytes::views(names@),
            hv == bytes::views(hidden@),
            bytes::views(r@) == visible(nv, hv, drop_directives, n as int),
        decreases names.len() - n,
    {
        assert(nv[n as int] == names[n as int]@);
        let drop: bool = text::holds(hidden, names[n].as_slice()) || (drop_directives
            && bytes::starts_with(names[n].as_slice(), "$ld$".as_bytes()));
        if !drop {
            text::push_name(&mut r, bytes::to_vec(names[n].as_slice()));
        }
        n += 1;
    }
    r
}

/// A stub file once its directives were followed for a platform and a
/// deployment target.
pub open spec fn interpreted(t: crate::tapi::TbdView, platform: u32, minos: u32) -> crate::tapi::TbdView {
    let d = directives_to(t.exports, platform, minos, t.exports.len() as int);
    crate::tapi::TbdView {
        exports: visible(t.exports, d.hidden, true, t.exports.len() as int) + d.added,
        weak_exports: visible(t.weak_exports, d.hidden, false, t.weak_exports.len() as int),
        install_name: match d.install_name {
            Some(n) => n,
            None => t.install_name,
        },
        ..t
    }
}

/// Follows a stub's "$ld$..." export names, which are directives: they add
/// or hide an export, or give another install name, for one deployment
/// target.
pub fn interpret_ld_symbols(t: &mut TbdFile, platform: u32, minos: u32)
    ensures
        final(t)@ == interpreted(old(t)@, platform, minos),
{
    let ghost before = t@;
    let d: Directives = read_directives(&t.exports, platform, minos);
    let mut exports: Vec<Vec<u8>> = keep_visible(&t.exports, &d.hidden, true);
    text::push_names(&mut exports, &d.added);
    let weak: Vec<Vec<u8>> = keep_visible(&t.weak_exports, &d.hidden, false);
    t.exports = exports;
    t.weak_exports = weak;
    if let Some(n) = d.install_name {
        t.install_name = n;
    }
    assert(t@ =~= interpreted(before, platform, minos));
}

/// The name under which the output links libraries: -client_name, or the
/// output's file name without "lib" in front and without extension.
pub open spec fn client_of(args: Args) -> Seq<u8> {
    match args.client_name {
        Some(n) => n@,
        None => {
            let leaf = match super::dylib::last_slash(args.output@, args.output.len() as int) {
                Some(i) => args.output@.skip(i + 1),
                None => args.output@,
            };
            let stem = text::before_byte(leaf, 46);
            match super::dylib::behind(stem, "lib".spec_bytes()) {
                Some(rest) => rest,
                None => stem,
            }
        },
    }
}

fn find_client(args: &Args) -> (r: Vec<u8>)
    ensures
        r@ == client_of(*args),
{
    if let Some(n) = &args.client_name {
        return bytes::to_vec(n.as_slice());
    }
    let leaf: Vec<u8> = match find_last_slash(args.output.as_slice()) {
        Some(i) => {
            let v: Vec<u8> = bytes::copy_range(args.output.as_slice(), i + 1, args.output.len());
            assert(v@ =~= args.output@.skip(i + 1));
            v
        },
        None => bytes::to_vec(args.output.as_slice()),
    };
    let end: usize = bytes::find_byte(leaf.as_slice(), 46, 0);
    let stem: Vec<u8> = bytes::copy_range(leaf.as_slice(), 0, end);
    assert(stem@ =~= text::before_byte(leaf@, 46));
    match strip_prefix(stem.as_slice(), "lib".as_bytes()) {
        Some(rest) => rest,
        None => stem,
    }
}

/// True when the output may not link a library directly: it belongs to an
/// umbrella that is neither the output's nor the output, and does not name
/// the output as a client.
pub open spec fn is_forbidden(args: Args, d: DylibFile) -> bool {
    match d.sub_framework {
        None => false,
        Some(u) => super::dylib::opt_name(args.umbrella) != Some(u@) && client_of(args) != u@
            && !bytes::views(d.sub_clients@).contains(client_of(args)),
    }
}

fn check_forbidden(args: &Args, d: &DylibFile) -> (r: bool)
    ensures
        r == is_forbidden(*args, *d),
{
    let umbrella: &Vec<u8> = match &d.sub_framework {
        Some(u) => u,
        None => {
            return false;
        },
    };
    let client: Vec<u8> = find_client(args);
    let ours: bool = match &args.umbrella {
        Some(u) => bytes::same(u.as_slice(), umbrella.as_slice()),
        None => false,
    };
    !ours && !bytes::same(client.as_slice(), umbrella.as_slice()) && !text::holds(
        &d.sub_clients,
        client.as_slice(),
    )
}

/// The first library with an install name, from the `i`th on.
pub open spec fn named(dylibs: Seq<DylibFile>, name: Seq<u8>, i: int) -> Option<int>
    decreases dylibs.len() - i,
{
    if i < 0 || i >= dylibs.len() {
        None
    } else if dylibs[i].install_name@ == name {
        Some(i)
    } else {
        named(dylibs, name, i + 1)
    }
}

fn find_named(dylibs: &Vec<DylibFile>, name: &[u8]) -> (r: Option<usize>)
    ensures
        match r {
            Some(i) => named(dylibs@, name@, 0) == Some(i as int) && i < dylibs.len(),
            None => named(dylibs@, name@, 0) is None,
        },
{
    let mut i: usize = 0;
    while i < dylibs.len()
        invariant
            i <= dylibs.len(),
            named(dylibs@, name@, i as int) == named(dylibs@, name@, 0),
        decreases dylibs.len() - i,
    {
        if bytes::same(dylibs[i].install_name.as_slice(), name) {
            return Some(i);
        }
        i += 1;
    }
    None
}

/// What registering a library said.
#[derive(Clone, Copy, Debug, PartialEq, Eq, Structural)]
pub struct Registered {
    /// The library's index.
    pub index: usize,
    /// An app extension links a library that is not safe for it.
    pub unsafe_extension: bool,
    /// The output may not link the library directly.
    pub forbidden: bool,
}

/// The library's ordinal and priority set.
pub open spec fn placed(d: DylibFile, idx: int, priority: u32) -> DylibFile {
    DylibFile { dylib_idx: idx as i32, priority, ..d }
}

/// Registers a library. Several stubs may stand for one library: one whose
/// install name is known adds its exports to that one. `None` when there are
/// too many.
pub fn add_dylib(args: &Args, dylibs: &mut Vec<DylibFile>, d: DylibFile, priority: u32) -> (r: Option<
    Registered,
>)
    ensures
        match r {
            Some(x) => {
                &&& x.unsafe_extension == (args.sw.application_extension
                    && !d.is_app_extension_safe)
                &&& x.forbidden == is_forbidden(*args, d)
                &&& match named(old(dylibs)@, d.install_name@, 0) {
                    Some(i) => {
                        &&& x.index == i
                        &&& final(dylibs)@ == old(dylibs)@.update(i, final(dylibs)@[i])
                        &&& final(dylibs)@[i] == (DylibFile {
                            exports: final(dylibs)@[i].exports,
                            ..old(dylibs)@[i]
                        })
                        &&& bytes::views(final(dylibs)@[i].exports@) == bytes::views(
                            old(dylibs)@[i].exports@,
                        ) + bytes::views(d.exports@)
                    },
                    None => {
                        &&& x.index == old(dylibs).len()
                        &&& final(dylibs)@ == old(dylibs)@.push(
                            placed(d, old(dylibs).len() + 1, priority),
                        )
                    },
                }
            },
            None => named(old(dylibs)@, d.install_name@, 0) is None && old(dylibs).len()
                >= i32::MAX && final(dylibs)@ == old(dylibs)@,
        },
{
    let unsafe_extension: bool = args.sw.application_extension && !d.is_app_extension_safe;
    let forbidden: bool = check_forbidden(args, &d);
    match find_named(dylibs, d.install_name.as_slice()) {
        Some(i) => {
            let ghost before = dylibs@;
            text::push_names(&mut dylibs[i].exports, &d.exports);
            assert(dylibs@ =~= before.update(i as int, dylibs@[i as int]));
            Some(Registered { index: i, unsafe_extension, forbidden })
        },
        None => {
            if dylibs.len() >= 0x7fff_ffff {
                return None;
            }
            let index: usize = dylibs.len();
            let ghost d0 = d;
            let mut d = d;
            d.dylib_idx = (index + 1) as i32;
            d.priority = priority;
            dylibs.push(d);
            Some(Registered { index, unsafe_extension, forbidden })
        },
    }
}

/// No two registered libraries have the same install name: registering
/// keeps that.
pub proof fn lemma_names_stay_distinct(before: Seq<DylibFile>, d: DylibFile, idx: int, priority: u32)
    requires
        forall|a: int, b: int|
            0 <= a < b < before.len() ==> (#[trigger] before[a]).install_name@ != (
            #[trigger] before[b]).install_name@,
        named(before, d.install_name@, 0) is None,
    ensures
        ({
            let after = before.push(placed(d, idx, priority));
            forall|a: int, b: int|
                0 <= a < b < after.len() ==> (#[trigger] after[a]).install_name@ != (
                #[trigger] after[b]).install_name@
        }),
{
    let after = before.push(placed(d, idx, priority));
    assert forall|a: int, b: int| 0 <= a < b < after.len() implies (
    #[trigger] after[a]).install_name@ != (#[trigger] after[b]).install_name@ by {
        if b < before.len() {
            assert(before[a].install_name@ != before[b].install_name@);
        } else {
            lemma_not_named(before, d.install_name@, 0, a);
        }
    }
}

proof fn lemma_not_named(dylibs: Seq<DylibFile>, name: Seq<u8>, from: int, a: int)
    requires
        0 <= from <= a < dylibs.len(),
        named(dylibs, name, from) is None,
    ensures
        dylibs[a].install_name@ != name,
    decreases a - from,
{
    if from < a {
        lemma_not_named(dylibs, name, from + 1, a);
    }
}

} // verus!
