//! TAPI text-based dylib stub (.tbd) files.
//!
//! Each dylib of an SDK is described by a file that gives its install name,
//! exported symbols and reexports. TAPI files are machine-generated and
//! regular, so a line-oriented scan of the YAML formats is enough; version 5
//! is JSON.
//!
//! A .tbd file may contain multiple YAML documents: the first one is the
//! library itself, and the rest are the libraries it reexports, inlined.
//! Since reexported symbols resolve through the top-level library, all
//! documents' exports are merged.
use crate::json;
use crate::json::{Json, JsonError, JsonView};
use crate::util::bytes;
use crate::util::text;
use crate::util::text::{holds, push_name, push_names};
use vstd::prelude::*;
use vstd::string::*;

verus! {

/// Why a stub file cannot be used.
#[derive(Clone, Copy, Debug, PartialEq, Eq, Structural)]
pub enum TapiError {
    InvalidUtf8,
    Json(JsonError),
    NoMainLibrary,
    NoInstallName,
}

#[derive(Debug, Default)]
pub struct TbdFile {
    pub install_name: Vec<u8>,
    pub current_version: u32,
    pub exports: Vec<Vec<u8>>,
    pub weak_exports: Vec<Vec<u8>>,
    /// Exports that are thread-local variables.
    pub tlv_exports: Vec<Vec<u8>>,
    /// The library was built without -application_extension.
    pub not_app_extension_safe: bool,
    /// Install names of reexported libraries described in other files.
    pub external_reexports: Vec<Vec<u8>>,
}

/// A stub file, as mathematical values.
#[verifier::ext_equal]
pub struct TbdView {
    pub install_name: Seq<u8>,
    pub current_version: u32,
    pub exports: Seq<Seq<u8>>,
    pub weak_exports: Seq<Seq<u8>>,
    pub tlv_exports: Seq<Seq<u8>>,
    pub not_app_extension_safe: bool,
    pub external_reexports: Seq<Seq<u8>>,
}

impl View for TbdFile {
    type V = TbdView;

    open spec fn view(&self) -> TbdView {
        TbdView {
            install_name: self.install_name@,
            current_version: self.current_version,
            exports: bytes::views(self.exports@),
            weak_exports: bytes::views(self.weak_exports@),
            tlv_exports: bytes::views(self.tlv_exports@),
            not_app_extension_safe: self.not_app_extension_safe,
            external_reexports: bytes::views(self.external_reexports@),
        }
    }
}

/// A stub file that says nothing: version 1.0.0.
pub open spec fn blank() -> TbdView {
    TbdView {
        install_name: Seq::empty(),
        current_version: 0x1_0000,
        exports: Seq::empty(),
        weak_exports: Seq::empty(),
        tlv_exports: Seq::empty(),
        not_app_extension_safe: false,
        external_reexports: Seq::empty(),
    }
}

fn make_blank() -> (r: TbdFile)
    ensures
        r@ == blank(),
{
    let r = TbdFile {
        install_name: Vec::new(),
        current_version: 0x1_0000,
        exports: Vec::new(),
        weak_exports: Vec::new(),
        tlv_exports: Vec::new(),
        not_app_extension_safe: false,
        external_reexports: Vec::new(),
    };
    assert(r@ =~= blank());
    r
}

/// A part of a version: 0 if it is missing or no number.
pub open spec fn part_or_zero(parts: Seq<Seq<u8>>, i: int) -> u32 {
    if i >= parts.len() {
        0
    } else {
        match text::parsed(parts[i], 10, u32::MAX as int) {
            Some(n) => n as u32,
            None => 0,
        }
    }
}

/// The version word of an X.Y.Z version, with 0 for what is missing.
pub open spec fn lenient_version(val: Seq<u8>) -> u32 {
    let parts = text::split(val, 46);
    crate::macho::version_word(
        part_or_zero(parts, 0),
        part_or_zero(parts, 1),
        part_or_zero(parts, 2),
    )
}

fn read_part(parts: &Vec<Vec<u8>>, i: usize) -> (r: u32)
    ensures
        r == part_or_zero(bytes::views(parts@), i as int),
{
    if i >= parts.len() {
        return 0;
    }
    assert(bytes::views(parts@)[i as int] == parts[i as int]@);
    match text::parse_number(parts[i].as_slice(), 10, 0xffff_ffff) {
        Some(n) => n as u32,
        None => 0,
    }
}

/// Reads an X.Y.Z version; what is missing or no number counts as 0.
pub fn parse_version(val: &[u8]) -> (r: u32)
    ensures
        r == lenient_version(val@),
{
    let parts: Vec<Vec<u8>> = text::split_at(val, 46);
    crate::macho::encode_version(
        read_part(&parts, 0),
        read_part(&parts, 1),
        read_part(&parts, 2),
    )
}

/// A YAML scalar without surrounding quotes and white space.
pub open spec fn unquoted(s: Seq<u8>) -> Seq<u8> {
    let t = text::trim(s);
    let n = t.len();
    if n >= 2 && ((t[0] == 39 && t.last() == 39) || (t[0] == 34 && t.last() == 34)) {
        t.subrange(1, n - 1)
    } else {
        t
    }
}

/// Strips a YAML scalar's surrounding quotes, if any.
pub fn unquote(s: &[u8]) -> (r: &[u8])
    ensures
        r@ == unquoted(s@),
{
    let t = text::trimmed(s);
    let n: usize = t.len();
    if n >= 2 && ((t[0] == 39 && t[n - 1] == 39) || (t[0] == 34 && t[n - 1] == 34)) {
        vstd::slice::slice_subrange(t, 1, n - 1)
    } else {
        t
    }
}

/// The names with a prefix.
pub open spec fn prefixed(prefix: Seq<u8>, names: Seq<Seq<u8>>) -> Seq<Seq<u8>> {
    names.map_values(|n: Seq<u8>| prefix + n)
}

/// The symbols of Objective-C classes: each class and its metaclass.
pub open spec fn class_symbols(names: Seq<Seq<u8>>) -> Seq<Seq<u8>>
    decreases names.len(),
{
    if names.len() == 0 {
        Seq::empty()
    } else {
        class_symbols(names.drop_last()).push(
            "_OBJC_CLASS_$_".spec_bytes() + names.last(),
        ).push("_OBJC_METACLASS_$_".spec_bytes() + names.last())
    }
}

fn with_prefix(prefix: &str, name: &[u8]) -> (r: Vec<u8>)
    ensures
        r@ == prefix.spec_bytes() + name@,
{
    let mut v: Vec<u8> = bytes::to_vec(prefix.as_bytes());
    bytes::append(&mut v, name);
    v
}

fn push_prefixed(list: &mut Vec<Vec<u8>>, prefix: &str, names: &Vec<Vec<u8>>)
    ensures
        bytes::views(final(list)@) == bytes::views(old(list)@) + prefixed(
            prefix.spec_bytes(),
            bytes::views(names@),
        ),
{
    let ghost start = bytes::views(list@);
    let ghost all = prefixed(prefix.spec_bytes(), bytes::views(names@));
    let mut i: usize = 0;
    assert(start + all.take(0) =~= start);
    while i < names.len()
        invariant
            i <= names.len(),
            all == prefixed(prefix.spec_bytes(), bytes::views(names@)),
            bytes::views(list@) == start + all.take(i as int),
        decreases names.len() - i,
    {
        push_name(list, with_prefix(prefix, names[i].as_slice()));
        assert(start + all.take(i + 1) =~= (start + all.take(i as int)).push(all[i as int]));
        i += 1;
    }
    assert(all.take(i as int) =~= all);
}

fn push_classes(list: &mut Vec<Vec<u8>>, names: &Vec<Vec<u8>>)
    ensures
        bytes::views(final(list)@) == bytes::views(old(list)@) + class_symbols(
            bytes::views(names@),
        ),
{
    let ghost start = bytes::views(list@);
    let ghost nv = bytes::views(names@);
    let mut i: usize = 0;
    assert(nv.take(0) =~= Seq::<Seq<u8>>::empty());
    assert(start + Seq::<Seq<u8>>::empty() =~= start);
    while i < names.len()
        invariant
            i <= names.len(),
            nv == bytes::views(names@),
            bytes::views(list@) == start + class_symbols(nv.take(i as int)),
        decreases names.len() - i,
    {
        let class: Vec<u8> = with_prefix("_OBJC_CLASS_$_", names[i].as_slice());
        let meta: Vec<u8> = with_prefix("_OBJC_METACLASS_$_", names[i].as_slice());
        let ghost (c, m) = (class@, meta@);
        push_name(list, class);
        push_name(list, meta);
        proof {
            assert(nv.take(i + 1).drop_last() =~= nv.take(i as int));
            let before = class_symbols(nv.take(i as int));
            assert((start + before).push(c).push(m) =~= start + before.push(c).push(m));
        }
        i += 1;
    }
    assert(nv.take(i as int) =~= nv);
}

/// The stub with the symbols of one section of a target group.
pub open spec fn with_kinds(t: TbdView, nodes: Seq<JsonView>, kinds: int) -> TbdView {
    TbdView {
        exports: t.exports + json::field_texts(nodes, kinds, "global".spec_bytes())
            + class_symbols(json::field_texts(nodes, kinds, "objc_class".spec_bytes()))
            + prefixed(
            "_OBJC_EHTYPE_$_".spec_bytes(),
            json::field_texts(nodes, kinds, "objc_eh_type".spec_bytes()),
        ) + prefixed(
            "_OBJC_IVAR_$_".spec_bytes(),
            json::field_texts(nodes, kinds, "objc_ivar".spec_bytes()),
        ),
        weak_exports: t.weak_exports + json::field_texts(nodes, kinds, "weak".spec_bytes()),
        tlv_exports: t.tlv_exports + json::field_texts(
            nodes,
            kinds,
            "thread_local".spec_bytes(),
        ),
        ..t
    }
}

/// The stub with the symbols of a section, if the target group has it.
pub open spec fn with_section(t: TbdView, nodes: Seq<JsonView>, group: int, key: Seq<u8>) -> TbdView {
    match json::field_of(nodes, group, key) {
        Some(kinds) => with_kinds(t, nodes, kinds),
        None => t,
    }
}

/// The stub with the symbols of the first `n` target groups.
pub open spec fn with_groups(
    t: TbdView,
    nodes: Seq<JsonView>,
    groups: Seq<(Seq<u8>, int)>,
    n: int,
) -> TbdView
    decreases n,
{
    if n <= 0 {
        t
    } else {
        let before = with_groups(t, nodes, groups, n - 1);
        with_section(
            with_section(before, nodes, groups[n - 1].1, "data".spec_bytes()),
            nodes,
            groups[n - 1].1,
            "text".spec_bytes(),
        )
    }
}

/// The stub with the symbols that a library's key lists.
pub open spec fn with_key(t: TbdView, nodes: Seq<JsonView>, lib: int, key: Seq<u8>) -> TbdView {
    let groups = json::field_items(nodes, lib, key);
    with_groups(t, nodes, groups, groups.len() as int)
}

/// The stub with one library's symbols.
pub open spec fn with_symbols(t: TbdView, nodes: Seq<JsonView>, lib: int) -> TbdView {
    with_key(
        with_key(t, nodes, lib, "exported_symbols".spec_bytes()),
        nodes,
        lib,
        "reexported_symbols".spec_bytes(),
    )
}

fn add_kinds(t: &mut TbdFile, nodes: &Vec<Json>, kinds: usize)
    requires
        kinds < nodes.len(),
        json::nested(json::json_views(nodes@)),
    ensures
        final(t)@ == with_kinds(old(t)@, json::json_views(nodes@), kinds as int),
{
    let ghost before = t@;
    let global: Vec<Vec<u8>> = json::strs(nodes, kinds, "global");
    let weak: Vec<Vec<u8>> = json::strs(nodes, kinds, "weak");
    let tlv: Vec<Vec<u8>> = json::strs(nodes, kinds, "thread_local");
    let classes: Vec<Vec<u8>> = json::strs(nodes, kinds, "objc_class");
    let eh_types: Vec<Vec<u8>> = json::strs(nodes, kinds, "objc_eh_type");
    let ivars: Vec<Vec<u8>> = json::strs(nodes, kinds, "objc_ivar");
    push_names(&mut t.exports, &global);
    push_names(&mut t.weak_exports, &weak);
    push_names(&mut t.tlv_exports, &tlv);
    push_classes(&mut t.exports, &classes);
    push_prefixed(&mut t.exports, "_OBJC_EHTYPE_$_", &eh_types);
    push_prefixed(&mut t.exports, "_OBJC_IVAR_$_", &ivars);
    assert(t@ =~= with_kinds(before, json::json_views(nodes@), kinds as int));
}

fn add_section(t: &mut TbdFile, nodes: &Vec<Json>, group: usize, key: &str)
    requires
        group < nodes.len(),
        json::nested(json::json_views(nodes@)),
    ensures
        final(t)@ == with_section(
            old(t)@,
            json::json_views(nodes@),
            group as int,
            key.spec_bytes(),
        ),
{
    match json::get(nodes, group, key) {
        Some(kinds) => add_kinds(t, nodes, kinds),
        None => {},
    }
}

fn add_key(t: &mut TbdFile, nodes: &Vec<Json>, lib: usize, key: &str)
    requires
        lib < nodes.len(),
        json::nested(json::json_views(nodes@)),
    ensures
        final(t)@ == with_key(
            old(t)@,
            json::json_views(nodes@),
            lib as int,
            key.spec_bytes(),
        ),
{
    let ghost nv = json::json_views(nodes@);
    let ghost start = t@;
    let groups: Vec<usize> = json::list_items(nodes, lib, key);
    let ghost gv = json::field_items(nv, lib as int, key.spec_bytes());
    let mut i: usize = 0;
    while i < groups.len()
        invariant
            i <= groups.len(),
            nv == json::json_views(nodes@),
            json::nested(nv),
            groups.len() == gv.len(),
            forall|k: int|
                0 <= k < groups.len() ==> #[trigger] groups[k] == gv[k].1 && groups[k]
                    < nodes.len(),
            t@ == with_groups(start, nv, gv, i as int),
        decreases groups.len() - i,
    {
        assert(groups[i as int] == gv[i as int].1);
        add_section(t, nodes, groups[i], "data");
        add_section(t, nodes, groups[i], "text");
        i += 1;
    }
}

/// Adds one library object's symbols.
fn add_symbols(t: &mut TbdFile, nodes: &Vec<Json>, lib: usize)
    requires
        lib < nodes.len(),
        json::nested(json::json_views(nodes@)),
    ensures
        final(t)@ == with_symbols(old(t)@, json::json_views(nodes@), lib as int),
{
    add_key(t, nodes, lib, "exported_symbols");
    add_key(t, nodes, lib, "reexported_symbols");
}

/// The text of a field of the first item of an array-valued field.
pub open spec fn first_text(nodes: Seq<JsonView>, i: int, key: Seq<u8>, sub: Seq<u8>) -> Option<
    Seq<u8>,
> {
    let items = json::field_items(nodes, i, key);
    if items.len() == 0 {
        None
    } else {
        match json::field_of(nodes, items[0].1, sub) {
            Some(k) => json::text_of(nodes, k),
            None => None,
        }
    }
}

fn find_first_text(nodes: &Vec<Json>, i: usize, key: &str, sub: &str) -> (r: Option<Vec<u8>>)
    requires
        i < nodes.len(),
        json::nested(json::json_views(nodes@)),
    ensures
        match r {
            Some(s) => first_text(
                json::json_views(nodes@),
                i as int,
                key.spec_bytes(),
                sub.spec_bytes(),
            ) == Some(s@),
            None => first_text(
                json::json_views(nodes@),
                i as int,
                key.spec_bytes(),
                sub.spec_bytes(),
            ) is None,
        },
{
    let items: Vec<usize> = json::list_items(nodes, i, key);
    if items.len() == 0 {
        return None;
    }
    assert(items[0] < nodes.len());
    match json::get(nodes, items[0], sub) {
        Some(k) => json::str_of(nodes, k),
        None => None,
    }
}

/// True if one of the first `n` flag groups says that the library is not
/// safe for app extensions.
pub open spec fn flagged(nodes: Seq<JsonView>, groups: Seq<(Seq<u8>, int)>, n: int) -> bool
    decreases n,
{
    n > 0 && (flagged(nodes, groups, n - 1) || json::field_texts(
        nodes,
        groups[n - 1].1,
        "attributes".spec_bytes(),
    ).contains("not_app_extension_safe".spec_bytes()))
}

fn check_flags(nodes: &Vec<Json>, lib: usize) -> (r: bool)
    requires
        lib < nodes.len(),
        json::nested(json::json_views(nodes@)),
    ensures
        ({
            let groups = json::field_items(
                json::json_views(nodes@),
                lib as int,
                "flags".spec_bytes(),
            );
            r == flagged(json::json_views(nodes@), groups, groups.len() as int)
        }),
{
    let ghost nv = json::json_views(nodes@);
    let groups: Vec<usize> = json::list_items(nodes, lib, "flags");
    let ghost gv = json::field_items(nv, lib as int, "flags".spec_bytes());
    let mut found: bool = false;
    let mut i: usize = 0;
    while i < groups.len()
        invariant
            i <= groups.len(),
            nv == json::json_views(nodes@),
            json::nested(nv),
            groups.len() == gv.len(),
            forall|k: int|
                0 <= k < groups.len() ==> #[trigger] groups[k] == gv[k].1 && groups[k]
                    < nodes.len(),
            found == flagged(nv, gv, i as int),
        decreases groups.len() - i,
    {
        assert(groups[i as int] == gv[i as int].1);
        let attrs: Vec<Vec<u8>> = json::strs(nodes, groups[i], "attributes");
        if holds(&attrs, "not_app_extension_safe".as_bytes()) {
            found = true;
        }
        i += 1;
    }
    found
}

/// The install names of the first `n` names of a library.
pub open spec fn lib_names(nodes: Seq<JsonView>, names: Seq<(Seq<u8>, int)>, n: int) -> Seq<Seq<u8>>
    decreases n,
{
    if n <= 0 {
        Seq::empty()
    } else {
        let before = lib_names(nodes, names, n - 1);
        match json::field_of(nodes, names[n - 1].1, "name".spec_bytes()) {
            Some(k) => match json::text_of(nodes, k) {
                Some(s) => before.push(s),
                None => before,
            },
            None => before,
        }
    }
}

/// The install names of the first `n` inlined libraries.
pub open spec fn doc_names(nodes: Seq<JsonView>, libs: Seq<(Seq<u8>, int)>, n: int) -> Seq<Seq<u8>>
    decreases n,
{
    if n <= 0 {
        Seq::empty()
    } else {
        let names = json::field_items(nodes, libs[n - 1].1, "install_names".spec_bytes());
        doc_names(nodes, libs, n - 1) + lib_names(nodes, names, names.len() as int)
    }
}

/// The stub with the symbols of the first `n` inlined libraries.
pub open spec fn with_libraries(
    t: TbdView,
    nodes: Seq<JsonView>,
    libs: Seq<(Seq<u8>, int)>,
    n: int,
) -> TbdView
    decreases n,
{
    if n <= 0 {
        t
    } else {
        with_symbols(with_libraries(t, nodes, libs, n - 1), nodes, libs[n - 1].1)
    }
}

/// The names that are in neither list, each once, behind `acc`.
pub open spec fn new_names(names: Seq<Seq<u8>>, known: Seq<Seq<u8>>, acc: Seq<Seq<u8>>, n: int) -> Seq<
    Seq<u8>,
>
    decreases n,
{
    if n <= 0 {
        acc
    } else {
        let before = new_names(names, known, acc, n - 1);
        if known.contains(names[n - 1]) || before.contains(names[n - 1]) {
            before
        } else {
            before.push(names[n - 1])
        }
    }
}

/// The reexported libraries of the first `n` groups that are described in
/// other files.
pub open spec fn external_of(
    nodes: Seq<JsonView>,
    groups: Seq<(Seq<u8>, int)>,
    known: Seq<Seq<u8>>,
    n: int,
) -> Seq<Seq<u8>>
    decreases n,
{
    if n <= 0 {
        Seq::empty()
    } else {
        let names = json::field_texts(nodes, groups[n - 1].1, "names".spec_bytes());
        new_names(
            names,
            known,
            external_of(nodes, groups, known, n - 1),
            names.len() as int,
        )
    }
}

fn list_doc_names(nodes: &Vec<Json>, libs: &Vec<usize>, Ghost(lv): Ghost<Seq<(Seq<u8>, int)>>) -> (r:
    Vec<Vec<u8>>)
    requires
        json::nested(json::json_views(nodes@)),
        libs.len() == lv.len(),
        forall|k: int|
            0 <= k < libs.len() ==> #[trigger] libs[k] == lv[k].1 && libs[k] < nodes.len(),
    ensures
        bytes::views(r@) == doc_names(json::json_views(nodes@), lv, lv.len() as int),
{
    let ghost nv = json::json_views(nodes@);
    let mut out: Vec<Vec<u8>> = Vec::new();
    let mut i: usize = 0;
    assert(bytes::views(out@) =~= Seq::<Seq<u8>>::empty());
    while i < libs.len()
        invariant
            i <= libs.len(),
            nv == json::json_views(nodes@),
            json::nested(nv),
            libs.len() == lv.len(),
            forall|k: int|
                0 <= k < libs.len() ==> #[trigger] libs[k] == lv[k].1 && libs[k] < nodes.len(),
            bytes::views(out@) == doc_names(nv, lv, i as int),
        decreases libs.len() - i,
    {
        assert(libs[i as int] == lv[i as int].1);
        let names: Vec<usize> = json::list_items(nodes, libs[i], "install_names");
        let ghost iv = json::field_items(nv, libs[i as int] as int, "install_names".spec_bytes());
        let ghost start = bytes::views(out@);
        let mut k: usize = 0;
        assert(start + Seq::<Seq<u8>>::empty() =~= start);
        while k < names.len()
            invariant
                k <= names.len(),
                nv == json::json_views(nodes@),
                json::nested(nv),
                names.len() == iv.len(),
                forall|j: int|
                    0 <= j < names.len() ==> #[trigger] names[j] == iv[j].1 && names[j]
                        < nodes.len(),
                bytes::views(out@) == start + lib_names(nv, iv, k as int),
            decreases names.len() - k,
        {
            assert(names[k as int] == iv[k as int].1);
            let ghost before = lib_names(nv, iv, k as int);
            match json::get(nodes, names[k], "name") {
                Some(n) => match json::str_of(nodes, n) {
                    Some(s) => {
                        let ghost sv = s@;
                        push_name(&mut out, s);
                        assert((start + before).push(sv) =~= start + before.push(sv));
                    },
                    None => {},
                },
                None => {},
            }
            k += 1;
        }
        i += 1;
    }
    out
}

fn push_new(out: &mut Vec<Vec<u8>>, names: &Vec<Vec<u8>>, known: &Vec<Vec<u8>>)
    ensures
        bytes::views(final(out)@) == new_names(
            bytes::views(names@),
            bytes::views(known@),
            bytes::views(old(out)@),
            names.len() as int,
        ),
{
    let ghost nv = bytes::views(names@);
    let ghost kv = bytes::views(known@);
    let ghost start = bytes::views(out@);
    let mut i: usize = 0;
    while i < names.len()
        invariant
            i <= names.len(),
            nv == bytes::views(names@),
            kv == bytes::views(known@),
            bytes::views(out@) == new_names(nv, kv, start, i as int),
        decreases names.len() - i,
    {
        assert(nv[i as int] == names[i as int]@);
        if !holds(known, names[i].as_slice()) && !holds(out, names[i].as_slice()) {
            push_name(out, bytes::to_vec(names[i].as_slice()));
        }
        i += 1;
    }
}

/// The stub that a JSON text describes.
pub open spec fn json_stub(nodes: Seq<JsonView>, root: int) -> Result<TbdView, TapiError> {
    match json::field_of(nodes, root, "main_library".spec_bytes()) {
        None => Err(TapiError::NoMainLibrary),
        Some(main) => {
            let flags = json::field_items(nodes, main, "flags".spec_bytes());
            let libs = json::field_items(nodes, root, "libraries".spec_bytes());
            let groups = json::field_items(nodes, main, "reexported_libraries".spec_bytes());
            let head = TbdView {
                install_name: match first_text(
                    nodes,
                    main,
                    "install_names".spec_bytes(),
                    "name".spec_bytes(),
                ) {
                    Some(s) => s,
                    None => Seq::empty(),
                },
                current_version: match first_text(
                    nodes,
                    main,
                    "current_versions".spec_bytes(),
                    "version".spec_bytes(),
                ) {
                    Some(s) => lenient_version(s),
                    None => 0x1_0000,
                },
                not_app_extension_safe: flagged(nodes, flags, flags.len() as int),
                ..blank()
            };
            let all = with_libraries(
                with_symbols(head, nodes, main),
                nodes,
                libs,
                libs.len() as int,
            );
            if head.install_name.len() == 0 {
                Err(TapiError::NoInstallName)
            } else {
                Ok(
                    TbdView {
                        external_reexports: external_of(
                            nodes,
                            groups,
                            doc_names(nodes, libs, libs.len() as int),
                            groups.len() as int,
                        ),
                        ..all
                    },
                )
            }
        },
    }
}

proof fn lemma_symbols_keep(t: TbdView, nodes: Seq<JsonView>, lib: int)
    ensures
        with_symbols(t, nodes, lib).install_name == t.install_name,
        with_symbols(t, nodes, lib).external_reexports == t.external_reexports,
{
    lemma_key_keeps(t, nodes, lib, "exported_symbols".spec_bytes());
    lemma_key_keeps(
        with_key(t, nodes, lib, "exported_symbols".spec_bytes()),
        nodes,
        lib,
        "reexported_symbols".spec_bytes(),
    );
}

proof fn lemma_key_keeps(t: TbdView, nodes: Seq<JsonView>, lib: int, key: Seq<u8>)
    ensures
        with_key(t, nodes, lib, key).install_name == t.install_name,
        with_key(t, nodes, lib, key).external_reexports == t.external_reexports,
{
    let groups = json::field_items(nodes, lib, key);
    lemma_groups_keep(t, nodes, groups, groups.len() as int);
}

proof fn lemma_groups_keep(t: TbdView, nodes: Seq<JsonView>, groups: Seq<(Seq<u8>, int)>, n: int)
    ensures
        with_groups(t, nodes, groups, n).install_name == t.install_name,
        with_groups(t, nodes, groups, n).external_reexports == t.external_reexports,
    decreases n,
{
    if n > 0 {
        lemma_groups_keep(t, nodes, groups, n - 1);
    }
}

proof fn lemma_libraries_keep(t: TbdView, nodes: Seq<JsonView>, libs: Seq<(Seq<u8>, int)>, n: int)
    ensures
        with_libraries(t, nodes, libs, n).install_name == t.install_name,
        with_libraries(t, nodes, libs, n).external_reexports == t.external_reexports,
    decreases n,
{
    if n > 0 {
        lemma_libraries_keep(t, nodes, libs, n - 1);
        lemma_symbols_keep(with_libraries(t, nodes, libs, n - 1), nodes, libs[n - 1].1);
    }
}

/// Makes the stub that parsed JSON describes.
fn stub_of_json(nodes: &Vec<Json>, root: usize) -> (r: Result<TbdFile, TapiError>)
    requires
        root < nodes.len(),
        json::nested(json::json_views(nodes@)),
    ensures
        match r {
            Ok(t) => json_stub(json::json_views(nodes@), root as int) == Ok::<TbdView, TapiError>(
                t@,
            ),
            Err(e) => json_stub(json::json_views(nodes@), root as int) == Err::<
                TbdView,
                TapiError,
            >(e),
        },
{
    let ghost nv = json::json_views(nodes@);
    let main: usize = match json::get(nodes, root, "main_library") {
        Some(m) => m,
        None => return Err(TapiError::NoMainLibrary),
    };
    let mut t: TbdFile = make_blank();
    match find_first_text(nodes, main, "install_names", "name") {
        Some(s) => {
            t.install_name = s;
        },
        None => {},
    }
    match find_first_text(nodes, main, "current_versions", "version") {
        Some(s) => {
            t.current_version = parse_version(s.as_slice());
        },
        None => {},
    }
    t.not_app_extension_safe = check_flags(nodes, main);
    let ghost head = t@;
    let ghost flags = json::field_items(nv, main as int, "flags".spec_bytes());
    let ghost goal = TbdView {
        install_name: match first_text(
            nv,
            main as int,
            "install_names".spec_bytes(),
            "name".spec_bytes(),
        ) {
            Some(s) => s,
            None => Seq::empty(),
        },
        current_version: match first_text(
            nv,
            main as int,
            "current_versions".spec_bytes(),
            "version".spec_bytes(),
        ) {
            Some(s) => lenient_version(s),
            None => 0x1_0000,
        },
        not_app_extension_safe: flagged(nv, flags, flags.len() as int),
        ..blank()
    };
    assert(head =~= goal);
    add_symbols(&mut t, nodes, main);
    let ghost mid = t@;
    let libs: Vec<usize> = json::list_items(nodes, root, "libraries");
    let ghost lv = json::field_items(nv, root as int, "libraries".spec_bytes());
    let known: Vec<Vec<u8>> = list_doc_names(nodes, &libs, Ghost(lv));
    let mut i: usize = 0;
    while i < libs.len()
        invariant
            i <= libs.len(),
            nv == json::json_views(nodes@),
            json::nested(nv),
            libs.len() == lv.len(),
            forall|k: int|
                0 <= k < libs.len() ==> #[trigger] libs[k] == lv[k].1 && libs[k] < nodes.len(),
            t@ == with_libraries(mid, nv, lv, i as int),
        decreases libs.len() - i,
    {
        assert(libs[i as int] == lv[i as int].1);
        add_symbols(&mut t, nodes, libs[i]);
        i += 1;
    }
    let ghost all = t@;
    proof {
        lemma_symbols_keep(head, nv, main as int);
        lemma_libraries_keep(mid, nv, lv, lv.len() as int);
    }
    let groups: Vec<usize> = json::list_items(nodes, main, "reexported_libraries");
    let ghost gv = json::field_items(nv, main as int, "reexported_libraries".spec_bytes());
    let mut external: Vec<Vec<u8>> = Vec::new();
    assert(bytes::views(external@) =~= Seq::<Seq<u8>>::empty());
    let mut j: usize = 0;
    while j < groups.len()
        invariant
            j <= groups.len(),
            nv == json::json_views(nodes@),
            json::nested(nv),
            groups.len() == gv.len(),
            forall|k: int|
                0 <= k < groups.len() ==> #[trigger] groups[k] == gv[k].1 && groups[k]
                    < nodes.len(),
            bytes::views(external@) == external_of(nv, gv, bytes::views(known@), j as int),
        decreases groups.len() - j,
    {
        assert(groups[j as int] == gv[j as int].1);
        let names: Vec<Vec<u8>> = json::strs(nodes, groups[j], "names");
        assert(bytes::views(names@).len() == names.len());
        push_new(&mut external, &names, &known);
        j += 1;
    }
    if t.install_name.len() == 0 {
        return Err(TapiError::NoInstallName);
    }
    t.external_reexports = external;
    assert(t@ =~= (TbdView {
        external_reexports: external_of(nv, gv, bytes::views(known@), gv.len() as int),
        ..all
    }));
    Ok(t)
}

/// Parses a TBD v5 file.
pub fn parse_json(data: &[u8]) -> (r: Result<TbdFile, TapiError>)
    ensures
        match r {
            Ok(t) => json_tbd(data@) == Ok::<TbdView, TapiError>(t@),
            Err(e) => json_tbd(data@) == Err::<TbdView, TapiError>(e),
        },
{
    let mut nodes: Vec<Json> = Vec::new();
    assert(json::json_views(nodes@) =~= Seq::<JsonView>::empty());
    match json::parse_value(data, 0, &mut nodes) {
        Err(e) => Err(TapiError::Json(e)),
        Ok((root, _next)) => stub_of_json(&nodes, root),
    }
}

/// The stub that a TBD v5 file describes: JSON with a "main_library" object
/// and, for reexported libraries inlined in the same file, a "libraries"
/// array of objects of the same shape.
pub open spec fn json_tbd(data: Seq<u8>) -> Result<TbdView, TapiError> {
    match json::value_at(data, 0, Seq::empty()) {
        Err(e) => Err(TapiError::Json(e)),
        Ok((root, next, nodes)) => json_stub(nodes, root),
    }
}

/// What a list's items are.
#[derive(Clone, Copy, Debug, PartialEq, Eq, Structural)]
pub enum Sink {
    Exports,
    ObjcClass,
    ObjcEhType,
    ObjcIvar,
    Weak,
    Tlv,
    Reexports,
}

/// What a scan of a YAML stub has found.
#[verifier::ext_equal]
pub struct ScanView {
    pub tbd: TbdView,
    /// How many documents have started.
    pub docs: int,
    /// The install names of all documents.
    pub names: Seq<Seq<u8>>,
    /// The reexported libraries.
    pub reexports: Seq<Seq<u8>>,
}

struct Scan {
    tbd: TbdFile,
    docs: usize,
    names: Vec<Vec<u8>>,
    reexports: Vec<Vec<u8>>,
}

impl View for Scan {
    type V = ScanView;

    closed spec fn view(&self) -> ScanView {
        ScanView {
            tbd: self.tbd@,
            docs: self.docs as int,
            names: bytes::views(self.names@),
            reexports: bytes::views(self.reexports@),
        }
    }
}

/// The list that a line starts, if it starts one. Only the first document's
/// reexports count.
pub open spec fn sink_of(line: Seq<u8>, first: bool) -> Option<Sink> {
    if bytes::has_prefix(line, "thread-local-symbols:".spec_bytes()) {
        Some(Sink::Tlv)
    } else if bytes::has_prefix(line, "weak-symbols:".spec_bytes()) {
        Some(Sink::Weak)
    } else if bytes::has_prefix(line, "symbols:".spec_bytes()) {
        Some(Sink::Exports)
    } else if bytes::has_prefix(line, "objc-classes:".spec_bytes()) {
        Some(Sink::ObjcClass)
    } else if bytes::has_prefix(line, "objc-eh-types:".spec_bytes()) {
        Some(Sink::ObjcEhType)
    } else if bytes::has_prefix(line, "objc-ivars:".spec_bytes()) {
        Some(Sink::ObjcIvar)
    } else if first && bytes::has_prefix(line, "libraries:".spec_bytes()) {
        Some(Sink::Reexports)
    } else {
        None
    }
}

fn find_sink(line: &[u8], first: bool) -> (r: Option<Sink>)
    ensures
        r == sink_of(line@, first),
{
    if bytes::starts_with(line, "thread-local-symbols:".as_bytes()) {
        Some(Sink::Tlv)
    } else if bytes::starts_with(line, "weak-symbols:".as_bytes()) {
        Some(Sink::Weak)
    } else if bytes::starts_with(line, "symbols:".as_bytes()) {
        Some(Sink::Exports)
    } else if bytes::starts_with(line, "objc-classes:".as_bytes()) {
        Some(Sink::ObjcClass)
    } else if bytes::starts_with(line, "objc-eh-types:".as_bytes()) {
        Some(Sink::ObjcEhType)
    } else if bytes::starts_with(line, "objc-ivars:".as_bytes()) {
        Some(Sink::ObjcIvar)
    } else if first && bytes::starts_with(line, "libraries:".as_bytes()) {
        Some(Sink::Reexports)
    } else {
        None
    }
}

/// What a scan has found after an item of a list.
pub open spec fn with_item(st: ScanView, sink: Sink, item: Seq<u8>) -> ScanView {
    let t = st.tbd;
    match sink {
        Sink::Exports => ScanView { tbd: TbdView { exports: t.exports.push(item), ..t }, ..st },
        Sink::Weak => ScanView {
            tbd: TbdView { weak_exports: t.weak_exports.push(item), ..t },
            ..st
        },
        Sink::Tlv => ScanView {
            tbd: TbdView { tlv_exports: t.tlv_exports.push(item), ..t },
            ..st
        },
        Sink::Reexports => ScanView { reexports: st.reexports.push(item), ..st },
        Sink::ObjcClass => ScanView {
            tbd: TbdView {
                exports: t.exports.push("_OBJC_CLASS_$_".spec_bytes() + item).push(
                    "_OBJC_METACLASS_$_".spec_bytes() + item,
                ),
                ..t
            },
            ..st
        },
        Sink::ObjcEhType => ScanView {
            tbd: TbdView {
                exports: t.exports.push("_OBJC_EHTYPE_$_".spec_bytes() + item),
                ..t
            },
            ..st
        },
        Sink::ObjcIvar => ScanView {
            tbd: TbdView { exports: t.exports.push("_OBJC_IVAR_$_".spec_bytes() + item), ..t },
            ..st
        },
    }
}

fn add_item(st: &mut Scan, sink: Sink, item: Vec<u8>)
    ensures
        final(st)@ == with_item(old(st)@, sink, item@),
{
    let ghost before = st@;
    let ghost iv = item@;
    match sink {
        Sink::Exports => push_name(&mut st.tbd.exports, item),
        Sink::Weak => push_name(&mut st.tbd.weak_exports, item),
        Sink::Tlv => push_name(&mut st.tbd.tlv_exports, item),
        Sink::Reexports => push_name(&mut st.reexports, item),
        Sink::ObjcClass => {
            push_name(&mut st.tbd.exports, with_prefix("_OBJC_CLASS_$_", item.as_slice()));
            push_name(&mut st.tbd.exports, with_prefix("_OBJC_METACLASS_$_", item.as_slice()));
        },
        Sink::ObjcEhType => {
            push_name(&mut st.tbd.exports, with_prefix("_OBJC_EHTYPE_$_", item.as_slice()));
        },
        Sink::ObjcIvar => {
            push_name(&mut st.tbd.exports, with_prefix("_OBJC_IVAR_$_", item.as_slice()));
        },
    }
    assert(st@ =~= with_item(before, sink, iv));
}

/// What a scan has found after the first `n` parts of a list.
pub open spec fn with_items(st: ScanView, sink: Sink, parts: Seq<Seq<u8>>, n: int) -> ScanView
    decreases n,
{
    if n <= 0 {
        st
    } else {
        let before = with_items(st, sink, parts, n - 1);
        let item = unquoted(text::trim(parts[n - 1]));
        if item.len() == 0 {
            before
        } else {
            with_item(before, sink, item)
        }
    }
}

/// Where the line behind `i` starts.
pub open spec fn line_behind(data: Seq<u8>, i: int) -> int {
    let e = bytes::index_of_byte(data, 10, i);
    if e < data.len() {
        e + 1
    } else {
        data.len() as int
    }
}

/// What a scan has found after the line at `pos`, and where it goes on. A
/// list runs from the next '[' to the next ']', across lines.
pub open spec fn scan_line(data: Seq<u8>, pos: int, st: ScanView) -> (ScanView, int) {
    let eol = bytes::index_of_byte(data, 10, pos);
    let raw = text::trim_start(data.subrange(pos, eol));
    let line = if bytes::has_prefix(raw, "- ".spec_bytes()) {
        raw.skip("- ".spec_bytes().len() as int)
    } else {
        raw
    };
    let next = line_behind(data, pos);
    let first = st.docs <= 1;
    let t = st.tbd;
    if bytes::has_prefix(raw, "---".spec_bytes()) {
        (ScanView { docs: st.docs + 1, ..st }, next)
    } else if bytes::has_prefix(line, "install-name:".spec_bytes()) {
        let name = unquoted(line.skip("install-name:".spec_bytes().len() as int));
        let named = ScanView { names: st.names.push(name), ..st };
        if first && t.install_name.len() == 0 {
            (ScanView { tbd: TbdView { install_name: name, ..t }, ..named }, next)
        } else {
            (named, next)
        }
    } else if first && bytes::has_prefix(line, "current-version:".spec_bytes()) {
        let v = lenient_version(
            unquoted(line.skip("current-version:".spec_bytes().len() as int)),
        );
        (ScanView { tbd: TbdView { current_version: v, ..t }, ..st }, next)
    } else if first && bytes::has_prefix(line, "flags:".spec_bytes()) {
        if bytes::has_part(line, "not_app_extension_safe".spec_bytes()) {
            (ScanView { tbd: TbdView { not_app_extension_safe: true, ..t }, ..st }, next)
        } else {
            (st, next)
        }
    } else {
        let open = bytes::index_of_byte(data, 91, pos);
        match sink_of(line, first) {
            Some(sink) => if open < data.len() {
                let close = bytes::index_of_byte(data, 93, open);
                let parts = text::split(data.subrange(open + 1, close), 44);
                (with_items(st, sink, parts, parts.len() as int), line_behind(data, close))
            } else {
                (st, next)
            },
            None => (st, next),
        }
    }
}

/// What a scan finds from `pos` on.
pub open spec fn scanned(data: Seq<u8>, pos: int, st: ScanView) -> ScanView
    decreases data.len() - pos,
{
    let (after, next) = scan_line(data, pos, st);
    if pos < 0 || pos >= data.len() || next <= pos {
        st
    } else if next >= data.len() {
        after
    } else {
        scanned(data, next, after)
    }
}

fn find_line_behind(data: &[u8], i: usize) -> (r: usize)
    requires
        i <= data.len(),
    ensures
        r == line_behind(data@, i as int),
        i <= r <= data.len(),
        i < data.len() ==> i < r,
{
    let e: usize = bytes::find_byte(data, 10, i);
    proof {
        bytes::lemma_index_of_byte_range(data@, 10, i as int);
    }
    if e < data.len() {
        e + 1
    } else {
        data.len()
    }
}

/// Collects the items of a list.
fn collect_items(st: &mut Scan, sink: Sink, parts: &Vec<Vec<u8>>)
    ensures
        final(st)@ == with_items(old(st)@, sink, bytes::views(parts@), parts.len() as int),
{
    let ghost start = st@;
    let ghost pv = bytes::views(parts@);
    let mut i: usize = 0;
    while i < parts.len()
        invariant
            i <= parts.len(),
            pv == bytes::views(parts@),
            st@ == with_items(start, sink, pv, i as int),
        decreases parts.len() - i,
    {
        assert(pv[i as int] == parts[i as int]@);
        let item = unquote(text::trimmed(parts[i].as_slice()));
        if item.len() > 0 {
            add_item(st, sink, bytes::to_vec(item));
        }
        i += 1;
    }
}

/// Behind a prefix.
fn behind<'a>(line: &'a [u8], prefix: &str) -> (r: Option<&'a [u8]>)
    ensures
        match r {
            Some(v) => bytes::has_prefix(line@, prefix.spec_bytes()) && v@ == line@.skip(
                prefix.spec_bytes().len() as int,
            ),
            None => !bytes::has_prefix(line@, prefix.spec_bytes()),
        },
{
    let p = prefix.as_bytes();
    if bytes::starts_with(line, p) {
        let v = vstd::slice::slice_subrange(line, p.len(), line.len());
        assert(v@ =~= line@.skip(p.len() as int));
        Some(v)
    } else {
        None
    }
}

/// Acts on one line.
fn read_line(data: &[u8], pos: usize, st: &mut Scan) -> (next: usize)
    requires
        pos < data.len(),
        old(st)@.docs < data.len(),
    ensures
        scan_line(data@, pos as int, old(st)@) == (final(st)@, next as int),
        pos < next <= data.len(),
        final(st)@.docs <= old(st)@.docs + 1,
{
    let ghost before = st@;
    let eol: usize = bytes::find_byte(data, 10, pos);
    proof {
        bytes::lemma_index_of_byte_range(data@, 10, pos as int);
    }
    let raw = text::without_leading_space(vstd::slice::slice_subrange(data, pos, eol));
    let next: usize = find_line_behind(data, pos);
    let first: bool = st.docs <= 1;
    if bytes::starts_with(raw, "---".as_bytes()) {
        st.docs += 1;
        assert(st@ =~= (ScanView { docs: before.docs + 1, ..before }));
        return next;
    }
    let line = match behind(raw, "- ") {
        Some(l) => l,
        None => raw,
    };
    match behind(line, "install-name:") {
        Some(val) => {
            let name = unquote(val);
            let ghost nv = name@;
            push_name(&mut st.names, bytes::to_vec(name));
            if first && st.tbd.install_name.len() == 0 {
                st.tbd.install_name = bytes::to_vec(name);
                assert(st@ =~= (ScanView {
                    tbd: TbdView { install_name: nv, ..before.tbd },
                    names: before.names.push(nv),
                    ..before
                }));
            } else {
                assert(st@ =~= (ScanView { names: before.names.push(nv), ..before }));
            }
            return next;
        },
        None => {},
    }
    if first {
        match behind(line, "current-version:") {
            Some(val) => {
                st.tbd.current_version = parse_version(unquote(val));
                assert(st@ =~= (ScanView {
                    tbd: TbdView { current_version: st.tbd.current_version, ..before.tbd },
                    ..before
                }));
                return next;
            },
            None => {},
        }
        if bytes::starts_with(line, "flags:".as_bytes()) {
            if bytes::contains(line, "not_app_extension_safe".as_bytes()) {
                st.tbd.not_app_extension_safe = true;
                assert(st@ =~= (ScanView {
                    tbd: TbdView { not_app_extension_safe: true, ..before.tbd },
                    ..before
                }));
            }
            return next;
        }
    }
    match find_sink(line, first) {
        None => next,
        Some(sink) => {
            let open: usize = bytes::find_byte(data, 91, pos);
            proof {
                bytes::lemma_index_of_byte_range(data@, 91, pos as int);
            }
            if open >= data.len() {
                return next;
            }
            let close: usize = bytes::find_byte(data, 93, open);
            proof {
                bytes::lemma_index_of_byte_range(data@, 93, open as int);
                bytes::lemma_found(data@, 91, pos as int);
                bytes::lemma_found(data@, 93, open as int);
            }
            let parts: Vec<Vec<u8>> = text::split_at(
                vstd::slice::slice_subrange(data, open + 1, close),
                44,
            );
            collect_items(st, sink, &parts);
            proof {
                assert(bytes::views(parts@).len() == parts.len());
                lemma_items_docs(before, sink, bytes::views(parts@), parts.len() as int);
            }
            find_line_behind(data, close)
        },
    }
}

proof fn lemma_items_docs(st: ScanView, sink: Sink, parts: Seq<Seq<u8>>, n: int)
    ensures
        with_items(st, sink, parts, n).docs == st.docs,
    decreases n,
{
    if n > 0 {
        lemma_items_docs(st, sink, parts, n - 1);
    }
}

/// The names that are not in a list.
pub open spec fn not_in(names: Seq<Seq<u8>>, known: Seq<Seq<u8>>, n: int) -> Seq<Seq<u8>>
    decreases n,
{
    if n <= 0 {
        Seq::empty()
    } else if known.contains(names[n - 1]) {
        not_in(names, known, n - 1)
    } else {
        not_in(names, known, n - 1).push(names[n - 1])
    }
}

/// The stub that a YAML text describes.
pub open spec fn yaml_tbd(data: Seq<u8>) -> Result<TbdView, TapiError> {
    let st = scanned(
        data,
        0,
        ScanView { tbd: blank(), docs: 0, names: Seq::empty(), reexports: Seq::empty() },
    );
    if st.tbd.install_name.len() == 0 {
        Err(TapiError::NoInstallName)
    } else {
        Ok(
            TbdView {
                external_reexports: not_in(st.reexports, st.names, st.reexports.len() as int),
                ..st.tbd
            },
        )
    }
}

fn parse_yaml(data: &[u8]) -> (r: Result<TbdFile, TapiError>)
    ensures
        match r {
            Ok(t) => yaml_tbd(data@) == Ok::<TbdView, TapiError>(t@),
            Err(e) => yaml_tbd(data@) == Err::<TbdView, TapiError>(e),
        },
{
    let mut st = Scan {
        tbd: make_blank(),
        docs: 0,
        names: Vec::new(),
        reexports: Vec::new(),
    };
    let ghost start = ScanView {
        tbd: blank(),
        docs: 0,
        names: Seq::empty(),
        reexports: Seq::empty(),
    };
    assert(st@ =~= start);
    let mut pos: usize = 0;
    while pos < data.len()
        invariant
            pos <= data.len(),
            st@.docs <= pos,
            pos < data.len() ==> scanned(data@, 0, start) == scanned(data@, pos as int, st@),
            pos >= data.len() ==> scanned(data@, 0, start) == st@,
        decreases data.len() - pos,
    {
        pos = read_line(data, pos, &mut st);
    }
    if st.tbd.install_name.len() == 0 {
        return Err(TapiError::NoInstallName);
    }
    let ghost sv = st@;
    let mut external: Vec<Vec<u8>> = Vec::new();
    assert(bytes::views(external@) =~= Seq::<Seq<u8>>::empty());
    let mut i: usize = 0;
    while i < st.reexports.len()
        invariant
            i <= st.reexports.len(),
            sv == st@,
            bytes::views(external@) == not_in(sv.reexports, sv.names, i as int),
        decreases st.reexports.len() - i,
    {
        assert(sv.reexports[i as int] == st.reexports[i as int]@);
        if !holds(&st.names, st.reexports[i].as_slice()) {
            push_name(&mut external, bytes::to_vec(st.reexports[i].as_slice()));
        }
        i += 1;
    }
    let mut t: TbdFile = st.tbd;
    t.external_reexports = external;
    assert(t@ =~= (TbdView {
        external_reexports: not_in(sv.reexports, sv.names, sv.reexports.len() as int),
        ..sv.tbd
    }));
    Ok(t)
}

/// The stub that a file describes.
pub open spec fn tbd_of(data: Seq<u8>) -> Result<TbdView, TapiError> {
    if !text::is_text(data) {
        Err(TapiError::InvalidUtf8)
    } else if bytes::has_prefix(text::trim_start(data), "{".spec_bytes()) {
        json_tbd(data)
    } else {
        yaml_tbd(data)
    }
}

/// Parses a .tbd file, merging exports of all its documents.
pub fn parse(data: &[u8]) -> (r: Result<TbdFile, TapiError>)
    ensures
        match r {
            Ok(t) => tbd_of(data@) == Ok::<TbdView, TapiError>(t@),
            Err(e) => tbd_of(data@) == Err::<TbdView, TapiError>(e),
        },
{
    if !text::check_text(data) {
        return Err(TapiError::InvalidUtf8);
    }
    if bytes::starts_with(text::without_leading_space(data), "{".as_bytes()) {
        parse_json(data)
    } else {
        parse_yaml(data)
    }
}

} // verus!
