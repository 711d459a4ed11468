//! Where libraries and frameworks are looked for.
use crate::args::Args;
use crate::input_files::dylib::join_dir;
use crate::util::{bytes, text};
use vstd::prelude::*;
use vstd::string::*;

verus! {

/// A path without its leading slashes.
pub open spec fn relative(p: Seq<u8>) -> Seq<u8>
    decreases p.len(),
{
    if p.len() > 0 && p[0] == 47 {
        relative(p.skip(1))
    } else {
        p
    }
}

fn make_relative(p: &[u8]) -> (r: Vec<u8>)
    ensures
        r@ == relative(p@),
{
    let mut i: usize = 0;
    assert(p@.skip(0) =~= p@);
    while i < p.len() && p[i] == 47
        invariant
            i <= p.len(),
            relative(p@.skip(i as int)) == relative(p@),
        decreases p.len() - i,
    {
        assert(p@.skip(i as int).skip(1) =~= p@.skip(i + 1));
        i += 1;
    }
    let r: Vec<u8> = bytes::copy_range(p, i, p.len());
    assert(r@ =~= p@.skip(i as int));
    r
}

/// A path below a directory.
pub open spec fn below(dir: Seq<u8>, rest: Seq<u8>) -> Seq<u8> {
    if dir.len() == 0 {
        rest
    } else if dir.last() == 47 {
        dir + rest
    } else {
        crate::input_files::dylib::in_dir(dir, rest)
    }
}

/// A path below a directory.
pub fn join_below(dir: &[u8], rest: &[u8]) -> (r: Vec<u8>)
    ensures
        r@ == below(dir@, rest@),
{
    if dir.len() == 0 {
        return bytes::to_vec(rest);
    }
    if dir[dir.len() - 1] == 47 {
        let mut r: Vec<u8> = bytes::to_vec(dir);
        bytes::append(&mut r, rest);
        return r;
    }
    join_dir(dir, rest)
}

/// A search path below each system root.
pub open spec fn rooted(dir: Seq<u8>, roots: Seq<Seq<u8>>) -> Seq<Seq<u8>> {
    roots.map_values(|r: Seq<u8>| below(r, relative(dir)))
}

/// The places of a search path below the system roots, one for each root.
/// Those that are directories are searched.
pub fn rooted_dirs(dir: &[u8], roots: &Vec<Vec<u8>>) -> (r: Vec<Vec<u8>>)
    ensures
        bytes::views(r@) == rooted(dir@, bytes::views(roots@)),
{
    let ghost rv = bytes::views(roots@);
    let ghost want = rooted(dir@, rv);
    let rel: Vec<u8> = make_relative(dir);
    let mut r: Vec<Vec<u8>> = Vec::new();
    assert(bytes::views(r@) =~= want.take(0));
    let mut i: usize = 0;
    while i < roots.len()
        invariant
            i <= roots.len(),
            rv == bytes::views(roots@),
            want == rooted(dir@, rv),
            rel@ == relative(dir@),
            bytes::views(r@) == want.take(i as int),
        decreases roots.len() - i,
    {
        assert(rv[i as int] == roots[i as int]@);
        text::push_name(&mut r, join_below(roots[i].as_slice(), rel.as_slice()));
        assert(want.take(i + 1) =~= want.take(i as int).push(want[i as int]));
        i += 1;
    }
    assert(want.take(i as int) =~= want);
    r
}

/// Those of the first `n` places that exist.
pub open spec fn existing(places: Seq<Seq<u8>>, exists_: Seq<bool>, n: int) -> Seq<Seq<u8>>
    decreases n,
{
    if n <= 0 {
        Seq::empty()
    } else if n <= exists_.len() && exists_[n - 1] {
        existing(places, exists_, n - 1).push(places[n - 1])
    } else {
        existing(places, exists_, n - 1)
    }
}

/// The directories that a search path stands for: its places below the
/// system roots that exist, or else itself.
pub open spec fn dirs_of(dir: Seq<u8>, roots: Seq<Seq<u8>>, exists_: Seq<bool>) -> Seq<Seq<u8>> {
    let places = rooted(dir, roots);
    let found = existing(places, exists_, places.len() as int);
    if found.len() > 0 {
        found
    } else {
        seq![dir]
    }
}

/// The directories that the first `n` search paths stand for. `found` says of
/// each path which of its places below the roots are directories.
pub open spec fn dirs_to(
    dirs: Seq<Seq<u8>>,
    roots: Seq<Seq<u8>>,
    found: Seq<Seq<bool>>,
    n: int,
) -> Seq<Seq<u8>>
    decreases n,
{
    if n <= 0 {
        Seq::empty()
    } else {
        dirs_to(dirs, roots, found, n - 1) + dirs_of(
            dirs[n - 1],
            roots,
            if n <= found.len() {
                found[n - 1]
            } else {
                Seq::empty()
            },
        )
    }
}

/// What is known of the places of search paths.
pub open spec fn found_views(found: Seq<Vec<bool>>) -> Seq<Seq<bool>> {
    found.map_values(|v: Vec<bool>| v@)
}

fn push_existing(
    out: &mut Vec<Vec<u8>>,
    dir: &Vec<u8>,
    roots: &Vec<Vec<u8>>,
    exists_: &Vec<bool>,
)
    ensures
        bytes::views(final(out)@) == bytes::views(old(out)@) + dirs_of(
            dir@,
            bytes::views(roots@),
            exists_@,
        ),
{
    let ghost start = bytes::views(out@);
    let places: Vec<Vec<u8>> = rooted_dirs(dir.as_slice(), roots);
    let ghost pv = bytes::views(places@);
    assert(start + Seq::<Seq<u8>>::empty() =~= start);
    let mut any: bool = false;
    let mut n: usize = 0;
    while n < places.len()
        invariant
            n <= places.len(),
            pv == bytes::views(places@),
            bytes::views(out@) == start + existing(pv, exists_@, n as int),
            any == (existing(pv, exists_@, n as int).len() > 0),
        decreases places.len() - n,
    {
        assert(pv[n as int] == places[n as int]@);
        let ghost head = existing(pv, exists_@, n as int);
        if n < exists_.len() && exists_[n] {
            text::push_name(out, bytes::to_vec(places[n].as_slice()));
            assert((start + head).push(pv[n as int]) =~= start + head.push(pv[n as int]));
            any = true;
        }
        n += 1;
    }
    if !any {
        let ghost head = existing(pv, exists_@, n as int);
        assert(head =~= Seq::empty());
        text::push_name(out, bytes::to_vec(dir.as_slice()));
        assert(start.push(dir@) =~= start + seq![dir@]);
    }
}

fn list_dirs(dirs: &Vec<Vec<u8>>, roots: &Vec<Vec<u8>>, found: &Vec<Vec<bool>>) -> (r: Vec<Vec<u8>>)
    ensures
        bytes::views(r@) == dirs_to(
            bytes::views(dirs@),
            bytes::views(roots@),
            found_views(found@),
            dirs.len() as int,
        ),
{
    let ghost dv = bytes::views(dirs@);
    let ghost rv = bytes::views(roots@);
    let ghost fv = found_views(found@);
    let mut r: Vec<Vec<u8>> = Vec::new();
    assert(bytes::views(r@) =~= Seq::empty());
    let mut n: usize = 0;
    while n < dirs.len()
        invariant
            n <= dirs.len(),
            dv == bytes::views(dirs@),
            rv == bytes::views(roots@),
            fv == found_views(found@),
            bytes::views(r@) == dirs_to(dv, rv, fv, n as int),
        decreases dirs.len() - n,
    {
        assert(dv[n as int] == dirs[n as int]@);
        if n < found.len() {
            assert(fv[n as int] == found[n as int]@);
            push_existing(&mut r, &dirs[n], roots, &found[n]);
        } else {
            let none: Vec<bool> = Vec::new();
            assert(none@ =~= Seq::empty());
            push_existing(&mut r, &dirs[n], roots, &none);
        }
        n += 1;
    }
    r
}

/// A standard directory: below each root, or by itself without roots.
pub open spec fn standard(dir: Seq<u8>, roots: Seq<Seq<u8>>) -> Seq<Seq<u8>> {
    if roots.len() == 0 {
        seq![dir]
    } else {
        rooted(dir, roots)
    }
}

fn push_standard(out: &mut Vec<Vec<u8>>, dir: &[u8], roots: &Vec<Vec<u8>>)
    ensures
        bytes::views(final(out)@) == bytes::views(old(out)@) + standard(
            dir@,
            bytes::views(roots@),
        ),
{
    let ghost start = bytes::views(out@);
    if roots.len() == 0 {
        text::push_name(out, bytes::to_vec(dir));
        assert(start.push(dir@) =~= start + seq![dir@]);
    } else {
        let places: Vec<Vec<u8>> = rooted_dirs(dir, roots);
        text::push_names(out, &places);
    }
}

/// The directories to search for libraries, in order.
pub open spec fn library_dirs(args: Args, found: Seq<Seq<bool>>) -> Seq<Seq<u8>> {
    let dirs = bytes::views(args.library_paths@);
    let roots = bytes::views(args.syslibroot@);
    dirs_to(dirs, roots, found, dirs.len() as int) + if args.sw.no_standard_dirs {
        Seq::empty()
    } else {
        standard("/usr/lib".spec_bytes(), roots)
    }
}

/// Lists the directories to search for libraries: the search paths, then the
/// standard directory. `found` says of each search path which of its places
/// below the system roots are directories.
pub fn library_search_dirs(args: &Args, found: &Vec<Vec<bool>>) -> (r: Vec<Vec<u8>>)
    ensures
        bytes::views(r@) == library_dirs(*args, found_views(found@)),
{
    let mut r: Vec<Vec<u8>> = list_dirs(&args.library_paths, &args.syslibroot, found);
    let ghost head = bytes::views(r@);
    if !args.sw.no_standard_dirs {
        push_standard(&mut r, "/usr/lib".as_bytes(), &args.syslibroot);
    } else {
        assert(head + Seq::<Seq<u8>>::empty() =~= head);
    }
    r
}

/// The two standard framework directories below the first `n` roots.
pub open spec fn framework_standard(roots: Seq<Seq<u8>>, n: int) -> Seq<Seq<u8>>
    decreases n,
{
    if n <= 0 {
        Seq::empty()
    } else {
        framework_standard(roots, n - 1).push(
            below(roots[n - 1], "System/Library/Frameworks".spec_bytes()),
        ).push(below(roots[n - 1], "Library/Frameworks".spec_bytes()))
    }
}

/// The directories to search for frameworks, in order.
pub open spec fn framework_dirs(args: Args, found: Seq<Seq<bool>>) -> Seq<Seq<u8>> {
    let dirs = bytes::views(args.framework_paths@);
    let roots = bytes::views(args.syslibroot@);
    dirs_to(dirs, roots, found, dirs.len() as int) + if args.sw.no_standard_dirs {
        Seq::empty()
    } else if roots.len() == 0 {
        seq!["/System/Library/Frameworks".spec_bytes(), "/Library/Frameworks".spec_bytes()]
    } else {
        framework_standard(roots, roots.len() as int)
    }
}

fn push_framework_standard(out: &mut Vec<Vec<u8>>, roots: &Vec<Vec<u8>>)
    ensures
        bytes::views(final(out)@) == bytes::views(old(out)@) + framework_standard(
            bytes::views(roots@),
            roots.len() as int,
        ),
{
    let ghost start = bytes::views(out@);
    let ghost rv = bytes::views(roots@);
    assert(start + Seq::<Seq<u8>>::empty() =~= start);
    let mut n: usize = 0;
    while n < roots.len()
        invariant
            n <= roots.len(),
            rv == bytes::views(roots@),
            bytes::views(out@) == start + framework_standard(rv, n as int),
        decreases roots.len() - n,
    {
        assert(rv[n as int] == roots[n as int]@);
        let ghost head = framework_standard(rv, n as int);
        let a: Vec<u8> = join_below(
            roots[n].as_slice(),
            "System/Library/Frameworks".as_bytes(),
        );
        let b: Vec<u8> = join_below(roots[n].as_slice(), "Library/Frameworks".as_bytes());
        let ghost av = a@;
        let ghost bv = b@;
        text::push_name(out, a);
        text::push_name(out, b);
        assert((start + head).push(av).push(bv) =~= start + head.push(av).push(bv));
        n += 1;
    }
}

/// Lists the directories to search for frameworks, by the same rules.
pub fn framework_search_dirs(args: &Args, found: &Vec<Vec<bool>>) -> (r: Vec<Vec<u8>>)
    ensures
        bytes::views(r@) == framework_dirs(*args, found_views(found@)),
{
    let mut r: Vec<Vec<u8>> = list_dirs(&args.framework_paths, &args.syslibroot, found);
    let ghost head = bytes::views(r@);
    if args.sw.no_standard_dirs {
        assert(head + Seq::<Seq<u8>>::empty() =~= head);
    } else if args.syslibroot.len() == 0 {
        text::push_name(&mut r, bytes::to_vec("/System/Library/Frameworks".as_bytes()));
        text::push_name(&mut r, bytes::to_vec("/Library/Frameworks".as_bytes()));
        assert(bytes::views(r@) =~= head + seq![
            "/System/Library/Frameworks".spec_bytes(),
            "/Library/Frameworks".spec_bytes(),
        ]);
    } else {
        push_framework_standard(&mut r, &args.syslibroot);
    }
    assert(bytes::views(args.syslibroot@).len() == args.syslibroot.len());
    r
}

/// A library's file name with an extension.
pub open spec fn lib_file(name: Seq<u8>, ext: Seq<u8>) -> Seq<u8> {
    "lib".spec_bytes() + name + seq![46u8] + ext
}

fn make_lib_file(name: &[u8], ext: &[u8]) -> (r: Vec<u8>)
    ensures
        r@ == lib_file(name@, ext@),
{
    let mut r: Vec<u8> = bytes::to_vec("lib".as_bytes());
    bytes::append(&mut r, name);
    let ghost head = r@;
    r.push(46);
    assert(r@ =~= head + seq![46u8]);
    bytes::append(&mut r, ext);
    r
}

/// The places of a library in the first `n` directories: as a stub and as a
/// binary where dylibs are asked for, as an archive where those are.
pub open spec fn lib_places(
    dirs: Seq<Seq<u8>>,
    name: Seq<u8>,
    dylibs: bool,
    archives: bool,
    n: int,
) -> Seq<Seq<u8>>
    decreases n,
{
    if n <= 0 {
        Seq::empty()
    } else {
        lib_places(dirs, name, dylibs, archives, n - 1) + (if dylibs {
            seq![
                below(dirs[n - 1], lib_file(name, "tbd".spec_bytes())),
                below(dirs[n - 1], lib_file(name, "dylib".spec_bytes())),
            ]
        } else {
            Seq::empty()
        }) + if archives {
            seq![below(dirs[n - 1], lib_file(name, "a".spec_bytes()))]
        } else {
            Seq::empty()
        }
    }
}

/// The places of a library, in the order in which they are tried: directory
/// by directory, or with -search_dylibs_first all dylibs before all archives.
pub open spec fn library_places(dirs: Seq<Seq<u8>>, name: Seq<u8>, dylibs_first: bool) -> Seq<Seq<u8>> {
    let n = dirs.len() as int;
    if dylibs_first {
        lib_places(dirs, name, true, false, n) + lib_places(dirs, name, false, true, n)
    } else {
        lib_places(dirs, name, true, true, n)
    }
}

fn push_lib_places(
    out: &mut Vec<Vec<u8>>,
    dirs: &Vec<Vec<u8>>,
    name: &[u8],
    dylibs: bool,
    archives: bool,
)
    ensures
        bytes::views(final(out)@) == bytes::views(old(out)@) + lib_places(
            bytes::views(dirs@),
            name@,
            dylibs,
            archives,
            dirs.len() as int,
        ),
{
    let ghost start = bytes::views(out@);
    let ghost dv = bytes::views(dirs@);
    let tbd: Vec<u8> = make_lib_file(name, "tbd".as_bytes());
    let dylib: Vec<u8> = make_lib_file(name, "dylib".as_bytes());
    let archive: Vec<u8> = make_lib_file(name, "a".as_bytes());
    assert(start + Seq::<Seq<u8>>::empty() =~= start);
    let mut n: usize = 0;
    while n < dirs.len()
        invariant
            n <= dirs.len(),
            dv == bytes::views(dirs@),
            tbd@ == lib_file(name@, "tbd".spec_bytes()),
            dylib@ == lib_file(name@, "dylib".spec_bytes()),
            archive@ == lib_file(name@, "a".spec_bytes()),
            bytes::views(out@) == start + lib_places(dv, name@, dylibs, archives, n as int),
        decreases dirs.len() - n,
    {
        assert(dv[n as int] == dirs[n as int]@);
        let ghost head = lib_places(dv, name@, dylibs, archives, n as int);
        let dir: &[u8] = dirs[n].as_slice();
        if dylibs {
            text::push_name(out, join_below(dir, tbd.as_slice()));
            text::push_name(out, join_below(dir, dylib.as_slice()));
        }
        if archives {
            text::push_name(out, join_below(dir, archive.as_slice()));
        }
        assert(bytes::views(out@) =~= start + lib_places(dv, name@, dylibs, archives, n + 1));
        n += 1;
    }
}

/// Lists the places of a library, in the order in which they are tried: the
/// first that is a file is it.
pub fn find_library(dirs: &Vec<Vec<u8>>, name: &[u8], dylibs_first: bool) -> (r: Vec<Vec<u8>>)
    ensures
        bytes::views(r@) == library_places(bytes::views(dirs@), name@, dylibs_first),
{
    let mut r: Vec<Vec<u8>> = Vec::new();
    assert(bytes::views(r@) =~= Seq::empty());
    if dylibs_first {
        push_lib_places(&mut r, dirs, name, true, false);
        push_lib_places(&mut r, dirs, name, false, true);
    } else {
        push_lib_places(&mut r, dirs, name, true, true);
    }
    assert(bytes::views(r@) =~= library_places(bytes::views(dirs@), name@, dylibs_first));
    r
}

/// The places of a framework in the first `n` directories: its stub, then
/// its binary.
pub open spec fn framework_places(dirs: Seq<Seq<u8>>, name: Seq<u8>, n: int) -> Seq<Seq<u8>>
    decreases n,
{
    if n <= 0 {
        Seq::empty()
    } else {
        let fw = below(dirs[n - 1], name + ".framework".spec_bytes());
        framework_places(dirs, name, n - 1).push(below(fw, name + ".tbd".spec_bytes())).push(
            below(fw, name),
        )
    }
}

/// Lists the places of a framework, in the order in which they are tried.
pub fn find_framework(dirs: &Vec<Vec<u8>>, name: &[u8]) -> (r: Vec<Vec<u8>>)
    ensures
        bytes::views(r@) == framework_places(bytes::views(dirs@), name@, dirs.len() as int),
{
    let ghost dv = bytes::views(dirs@);
    let mut fw_name: Vec<u8> = bytes::to_vec(name);
    bytes::append(&mut fw_name, ".framework".as_bytes());
    let mut stub: Vec<u8> = bytes::to_vec(name);
    bytes::append(&mut stub, ".tbd".as_bytes());
    let mut r: Vec<Vec<u8>> = Vec::new();
    assert(bytes::views(r@) =~= Seq::empty());
    let mut n: usize = 0;
    while n < dirs.len()
        invariant
            n <= dirs.len(),
            dv == bytes::views(dirs@),
            fw_name@ == name@ + ".framework".spec_bytes(),
            stub@ == name@ + ".tbd".spec_bytes(),
            bytes::views(r@) == framework_places(dv, name@, n as int),
        decreases dirs.len() - n,
    {
        assert(dv[n as int] == dirs[n as int]@);
        let fw: Vec<u8> = join_below(dirs[n].as_slice(), fw_name.as_slice());
        text::push_name(&mut r, join_below(fw.as_slice(), stub.as_slice()));
        text::push_name(&mut r, join_below(fw.as_slice(), name));
        n += 1;
    }
    r
}

/// A path with its extension replaced by that of a stub.
pub open spec fn stub_path(path: Seq<u8>) -> Seq<u8> {
    let leaf = match crate::input_files::dylib::last_slash(path, path.len() as int) {
        Some(i) => i + 1,
        None => 0,
    };
    match last_dot(path, leaf, path.len() as int) {
        Some(i) => path.take(i) + ".tbd".spec_bytes(),
        None => path + ".tbd".spec_bytes(),
    }
}

/// The last dot behind the first byte of a file name, which starts at `from`.
pub open spec fn last_dot(path: Seq<u8>, from: int, n: int) -> Option<int>
    decreases n,
{
    if n <= from + 1 || n <= 0 {
        None
    } else if path[n - 1] == 46 {
        Some(n - 1)
    } else {
        last_dot(path, from, n - 1)
    }
}

fn make_stub_path(path: &[u8]) -> (r: Vec<u8>)
    ensures
        r@ == stub_path(path@),
{
    let leaf: usize = match crate::input_files::dylib::find_last_slash(path) {
        Some(i) => i + 1,
        None => 0,
    };
    let mut n: usize = path.len();
    while n > 0 && n - 1 > leaf && path[n - 1] != 46
        invariant
            n <= path.len(),
            last_dot(path@, leaf as int, n as int) == last_dot(
                path@,
                leaf as int,
                path.len() as int,
            ),
        decreases n,
    {
        n -= 1;
    }
    let cut: usize = if n > 0 && n - 1 > leaf {
        n - 1
    } else {
        path.len()
    };
    let mut r: Vec<u8> = bytes::copy_range(path, 0, cut);
    assert(r@ =~= path@.take(cut as int));
    assert(path@.take(path.len() as int) =~= path@);
    bytes::append(&mut r, ".tbd".as_bytes());
    r
}

/// The files that may describe a re-exported library, below one root: a stub
/// in place of the binary, a stub beside it, and the binary.
pub open spec fn library_files(base: Seq<u8>) -> Seq<Seq<u8>> {
    seq![stub_path(base), base + ".tbd".spec_bytes(), base]
}

/// The files that may describe a re-exported library, below the first `n`
/// roots.
pub open spec fn reexport_files(roots: Seq<Seq<u8>>, name: Seq<u8>, n: int) -> Seq<Seq<u8>>
    decreases n,
{
    if n <= 0 {
        Seq::empty()
    } else {
        reexport_files(roots, name, n - 1) + library_files(
            if roots[n - 1].len() == 0 {
                name
            } else {
                below(roots[n - 1], relative(name))
            },
        )
    }
}

fn push_library_files(out: &mut Vec<Vec<u8>>, base: Vec<u8>)
    ensures
        bytes::views(final(out)@) == bytes::views(old(out)@) + library_files(base@),
{
    let ghost start = bytes::views(out@);
    let ghost b = base@;
    text::push_name(out, make_stub_path(base.as_slice()));
    let mut beside: Vec<u8> = bytes::to_vec(base.as_slice());
    bytes::append(&mut beside, ".tbd".as_bytes());
    text::push_name(out, beside);
    text::push_name(out, base);
    assert(bytes::views(out@) =~= start + library_files(b));
}

/// Lists the files that may describe a re-exported library: below each
/// system root, then at the path itself. The first that exists does.
pub fn find_reexport_file(roots: &Vec<Vec<u8>>, name: &[u8]) -> (r: Vec<Vec<u8>>)
    ensures
        bytes::views(r@) == reexport_files(bytes::views(roots@), name@, roots.len() as int)
            + library_files(name@),
{
    let ghost rv = bytes::views(roots@);
    let rel: Vec<u8> = make_relative(name);
    let mut r: Vec<Vec<u8>> = Vec::new();
    assert(bytes::views(r@) =~= Seq::empty());
    let mut n: usize = 0;
    while n < roots.len()
        invariant
            n <= roots.len(),
            rv == bytes::views(roots@),
            rel@ == relative(name@),
            bytes::views(r@) == reexport_files(rv, name@, n as int),
        decreases roots.len() - n,
    {
        assert(rv[n as int] == roots[n as int]@);
        let base: Vec<u8> = if roots[n].len() == 0 {
            bytes::to_vec(name)
        } else {
            join_below(roots[n].as_slice(), rel.as_slice())
        };
        push_library_files(&mut r, base);
        n += 1;
    }
    push_library_files(&mut r, bytes::to_vec(name));
    r
}

} // verus!
