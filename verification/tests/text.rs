//! Command lines and the text formats of libraries.
use mold_macho::args::{Args, InputArg, TargetName};
use mold_macho::cmdline::{
    expand_response_files, join_path, list_files_named, parse_args, read_filelist,
    tokenize_response, ArgError, FileText, Parsed, Problem, ResponseError,
};
use mold_macho::json::{get, list_items, parse_value, str_of, strs, Json, JsonError, JsonKind};
use mold_macho::options::{
    canonical_name, find_exponent, parse_hex, parse_platform, parse_prot, parse_version,
};
use mold_macho::tapi::{self, TapiError};

fn words(args: &[&str]) -> Vec<Vec<u8>> {
    args.iter().map(|a| a.as_bytes().to_vec()).collect()
}

fn file(path: &str, contents: &str) -> FileText {
    FileText { path: path.as_bytes().to_vec(), contents: Some(contents.as_bytes().to_vec()) }
}

fn parse(args: &[&str], files: Vec<FileText>) -> Result<Parsed, ArgError> {
    let mut cmd = words(&["ld"]);
    cmd.extend(words(args));
    parse_args(&cmd, &files)
}

fn linked(args: &[&str], files: Vec<FileText>) -> Args {
    match parse(args, files) {
        Ok(Parsed::Link(a)) => a,
        _ => panic!("bad arguments"),
    }
}

fn problem(args: &[&str], files: Vec<FileText>) -> Problem {
    parse(args, files).unwrap_err().problem
}

#[test]
fn defaults_make_a_program() {
    let a = linked(&["a.o"], Vec::new());
    assert_eq!(a.output, b"a.out");
    assert_eq!(a.entry, b"_main");
    assert_eq!(a.sw.output_type, 2);
    assert_eq!(a.sw.arch, None);
    assert!(a.sw.uuid && a.sw.function_starts);
}

#[test]
fn inputs_keep_their_order() {
    let a = linked(&["-lc", "a.o", "-framework", "Foundation", "-weak-lz", "b.a"], Vec::new());
    assert_eq!(a.inputs.len(), 5);
    assert!(matches!(&a.inputs[0], InputArg::Lib(n, false) if n == b"c"));
    assert!(matches!(&a.inputs[1], InputArg::File(n) if n == b"a.o"));
    assert!(matches!(&a.inputs[2], InputArg::Framework(n, false) if n == b"Foundation"));
    assert!(matches!(&a.inputs[3], InputArg::Lib(n, true) if n == b"z"));
    assert!(matches!(&a.inputs[4], InputArg::File(n) if n == b"b.a"));
}

#[test]
fn dylib_has_no_pagezero() {
    let a = linked(&["-dylib", "a.o", "-install_name", "x"], Vec::new());
    assert_eq!(a.sw.output_type, 6);
    assert_eq!(a.sw.pagezero_size, 0);
    assert_eq!(a.install_name, Some(b"x".to_vec()));
}

#[test]
fn program_keeps_the_default_pagezero() {
    for cmd in [
        &["a.o"][..],
        &["-dead_strip", "a.o", "-image_base", "0x1000"],
        &["-stack_size", "1000", "-e", "_start", "a.o", "-headerpad", "20"],
    ] {
        let a = linked(cmd, Vec::new());
        assert_eq!((a.sw.pagezero_size, a.sw.explicit_pagezero), (0x1_0000_0000, false));
    }
    let a = linked(&["-pagezero_size", "4000", "a.o"], Vec::new());
    assert_eq!((a.sw.pagezero_size, a.sw.explicit_pagezero), (0x4000, true));
}

#[test]
fn each_argument_problem_is_told_apart() {
    let none = Vec::new;
    assert_eq!(problem(&["a.o", "-o"], none()), Problem::Missing);
    assert_eq!(problem(&["-arch", "ppc", "a.o"], none()), Problem::UnsupportedTarget);
    assert_eq!(
        problem(&["-platform_version", "amiga", "1.0", "1.0", "a.o"], none()),
        Problem::UnsupportedPlatform
    );
    assert_eq!(
        problem(&["-platform_version", "macos", "x", "1.0", "a.o"], none()),
        Problem::MalformedVersion
    );
    assert_eq!(problem(&["-stack_size", "zz", "a.o"], none()), Problem::MalformedNumber);
    assert_eq!(
        problem(&["-segprot", "__TEXT", "rq", "r", "a.o"], none()),
        Problem::InvalidProtection
    );
    assert_eq!(problem(&["-undefined", "maybe", "a.o"], none()), Problem::UnsupportedTreatment);
    assert_eq!(
        problem(&["-sectalign", "__TEXT", "__text", "3", "a.o"], none()),
        Problem::NotPowerOfTwo
    );
    assert_eq!(problem(&["-exported_symbols_list", "no", "a.o"], none()), Problem::CannotRead);
    assert_eq!(
        problem(&["-alias_list", "l", "a.o"], vec![file("l", "_only\n")]),
        Problem::MalformedAlias
    );
    assert_eq!(problem(&["-why_live", "_[a", "a.o"], none()), Problem::InvalidPattern);
    assert_eq!(
        problem(&["-exported_symbols_list", "l", "a.o"], vec![file("l", "_a\n_[b]*\n_[c\n")]),
        Problem::InvalidPattern
    );
    assert_eq!(problem(&["-no_such_option", "a.o"], none()), Problem::Unknown);
    assert_eq!(
        problem(&["-dylib", "-pagezero_size", "0x1000", "a.o"], none()),
        Problem::PagezeroNotExecutable
    );
    assert_eq!(
        problem(&["-r", "-sdk_imports", "x", "a.o"], none()),
        Problem::SdkImportsRelocatable
    );
    assert_eq!(
        problem(&["-no_exported_symbols", "-exported_symbol", "_a", "a.o"], none()),
        Problem::ExportsConflict
    );
}

#[test]
fn argument_must_be_text() {
    let cmd = vec![b"ld".to_vec(), b"-u".to_vec(), vec![0xff, 0xfe]];
    assert_eq!(parse_args(&cmd, &Vec::new()).unwrap_err().problem, Problem::NotText);
}

#[test]
fn version_alone_links_nothing() {
    assert!(matches!(parse(&["-v"], Vec::new()), Ok(Parsed::VersionOnly)));
    assert!(matches!(parse(&["-help"], Vec::new()), Ok(Parsed::Help)));
    assert!(matches!(parse(&["-v", "a.o"], Vec::new()), Ok(Parsed::Link(_))));
}

#[test]
fn filelist_directory_stands_before_its_names() {
    let mut out: Vec<InputArg> = Vec::new();
    read_filelist(b"list,/dir", b"a.o\nb.o\n", &mut out);
    assert_eq!(out.len(), 2);
    assert!(matches!(&out[0], InputArg::File(n) if n == b"/dir/a.o"));
    assert!(matches!(&out[1], InputArg::File(n) if n == b"/dir/b.o"));
    let a = linked(&["-filelist", "list,d", "c.o"], vec![file("list", "a.o\n")]);
    assert!(matches!(&a.inputs[0], InputArg::File(n) if n == b"d/a.o"));
    let a = linked(&["-filelist", "list"], vec![file("list", "a.o\n")]);
    assert!(matches!(&a.inputs[0], InputArg::File(n) if n == b"a.o"));
}

#[test]
fn absolute_name_needs_no_directory() {
    assert_eq!(join_path(b"dir", b"a.o"), b"dir/a.o");
    assert_eq!(join_path(b"dir", b"/a.o"), b"/a.o");
}

#[test]
fn response_file_has_quotes_and_escapes() {
    let t = tokenize_response(b" a 'b c' \"d\\\"e\" f\\ g\n").unwrap();
    assert_eq!(t, words(&["a", "b c", "d\"e", "f g"]));
    assert_eq!(tokenize_response(b"'a"), None);
    assert_eq!(tokenize_response(b"a\\"), None);
}

#[test]
fn response_files_are_expanded() {
    let files = vec![file("x", "-lc @y"), file("y", "b.o"), file("bad", "'")];
    let r = expand_response_files(&words(&["ld", "@x", "c.o", "@gone"]), &files).unwrap();
    assert_eq!(r, words(&["ld", "-lc", "b.o", "c.o", "@gone"]));
    let e = expand_response_files(&words(&["ld", "@bad"]), &files).unwrap_err();
    assert!(matches!(e, ResponseError::PrematureEnd));
    let looped = vec![file("z", "@z")];
    let e = expand_response_files(&words(&["ld", "@z"]), &looped).unwrap_err();
    assert!(matches!(e, ResponseError::TooDeep));
}

#[test]
fn values_of_options() {
    assert_eq!(parse_version(b"10.15.4"), Some(0x000a_0f04));
    assert_eq!(parse_version(b"12"), Some(0x000c_0000));
    assert_eq!(parse_version(b"1.x"), None);
    assert_eq!(parse_hex(b"0x1000"), Some(0x1000));
    assert_eq!(parse_hex(b"ff"), Some(0xff));
    assert_eq!(parse_hex(b""), None);
    assert_eq!(parse_prot(b"rwx"), Some(7));
    assert_eq!(parse_prot(b"r"), Some(1));
    assert_eq!(parse_prot(b"q"), None);
    assert_eq!(find_exponent(8), Some(3));
    assert_eq!(find_exponent(6), None);
    assert_eq!(parse_platform(b"macos"), Some(1));
    assert_eq!(canonical_name(b"arm64"), Some(TargetName::Arm64));
    assert_eq!(canonical_name(b"x86_64"), Some(TargetName::X86_64));
    assert_eq!(canonical_name(b"m68k"), None);
}

fn json(text: &str) -> Result<(Vec<Json>, usize), JsonError> {
    let mut nodes: Vec<Json> = Vec::new();
    match parse_value(text.as_bytes(), 0, &mut nodes) {
        Ok((root, _)) => Ok((nodes, root)),
        Err(e) => Err(e),
    }
}

#[test]
fn json_values_are_read() {
    let (nodes, root) = json("{\"a\": [1, \"x\\u00e9\\n\"], \"b\": null, \"c\": true}").unwrap();
    assert_eq!(nodes[root].kind, JsonKind::Obj);
    let items = list_items(&nodes, root, "a");
    assert_eq!(items.len(), 2);
    assert_eq!(str_of(&nodes, items[0]), None);
    assert_eq!(str_of(&nodes, items[1]), Some("x\u{e9}\n".as_bytes().to_vec()));
    assert_eq!(strs(&nodes, root, "a"), vec!["x\u{e9}\n".as_bytes().to_vec()]);
    assert_eq!(nodes[get(&nodes, root, "b").unwrap()].kind, JsonKind::Null);
    assert!(get(&nodes, root, "d").is_none());
}

#[test]
fn each_json_error_is_told_apart() {
    let error = |text: &str| json(text).unwrap_err();
    assert_eq!(error("{\"a\" 1}"), JsonError::ExpectedColon);
    assert_eq!(error("{\"a\": 1 \"b\": 2}"), JsonError::ExpectedCommaOrBrace);
    assert_eq!(error("[1 2]"), JsonError::ExpectedCommaOrBracket);
    assert_eq!(error("x"), JsonError::ExpectedValue);
    assert_eq!(error(" "), JsonError::UnexpectedEnd);
    assert_eq!(error("{1: 2}"), JsonError::ExpectedString);
    assert_eq!(error("\"a"), JsonError::UnterminatedString);
    assert_eq!(error("\"\\uzzzz\""), JsonError::BadUnicodeEscape);
}

const YAML: &str = "--- !tapi-tbd
tbd-version: 4
targets: [ arm64-macos ]
install-name: '/usr/lib/libA.dylib'
current-version: 1.2.3
reexported-libraries:
  - targets: [ arm64-macos ]
    libraries: [ '/usr/lib/libB.dylib', /usr/lib/libC.dylib ]
exports:
  - targets: [ arm64-macos ]
    symbols: [ _a, '_b$c',
               _d ]
    weak-symbols: [ _w ]
    thread-local-symbols: [ _t ]
    objc-classes: [ Cls ]
--- !tapi-tbd
tbd-version: 4
targets: [ arm64-macos ]
install-name: '/usr/lib/libB.dylib'
exports:
  - targets: [ arm64-macos ]
    symbols: [ _inner ]
...
";

#[test]
fn stub_file_lists_exports_of_all_documents() {
    let t = tapi::parse(YAML.as_bytes()).unwrap();
    assert_eq!(t.install_name, b"/usr/lib/libA.dylib");
    assert_eq!(t.current_version, 0x0001_0203);
    for name in ["_a", "_b$c", "_d", "_inner", "_OBJC_CLASS_$_Cls", "_OBJC_METACLASS_$_Cls"] {
        assert!(t.exports.contains(&name.as_bytes().to_vec()), "{name}");
    }
    assert_eq!(t.weak_exports, words(&["_w"]));
    assert_eq!(t.tlv_exports, words(&["_t"]));
    // The library that is inlined is no other file's.
    assert_eq!(t.external_reexports, words(&["/usr/lib/libC.dylib"]));
}

#[test]
fn json_stub_file_is_read() {
    let text = "{\"main_library\": {\"install_names\": [{\"name\": \"/usr/lib/libA.dylib\"}], \
                \"exported_symbols\": [{\"text\": {\"global\": [\"_a\"], \"weak\": [\"_w\"]}}]}, \
                \"tapi_tbd_version\": 5}";
    let t = tapi::parse(text.as_bytes()).unwrap();
    assert_eq!(t.install_name, b"/usr/lib/libA.dylib");
    assert!(t.exports.contains(&b"_a".to_vec()));
    assert!(t.weak_exports.contains(&b"_w".to_vec()));
}

#[test]
fn each_stub_error_is_told_apart() {
    assert!(matches!(tapi::parse(&[0x2d, 0xff]), Err(TapiError::InvalidUtf8)));
    assert!(matches!(tapi::parse(b"{\"a\": 1}"), Err(TapiError::NoMainLibrary)));
    assert!(matches!(tapi::parse(b"{\"main_library\": {}}"), Err(TapiError::NoInstallName)));
    assert!(matches!(tapi::parse(b"--- !tapi-tbd\n"), Err(TapiError::NoInstallName)));
    assert!(matches!(
        tapi::parse(b"{\"a\" 1}"),
        Err(TapiError::Json(JsonError::ExpectedColon))
    ));
}

#[test]
fn files_that_options_name_are_listed() {
    let cmd = words(&[
        "ld",
        "a.o",
        "-exported_symbols_list",
        "exports",
        "-filelist",
        "list,/dir",
        "-o",
        "out",
        "-alias_list",
        "aliases",
    ]);
    assert_eq!(list_files_named(&cmd), words(&["exports", "list", "aliases"]));
}
