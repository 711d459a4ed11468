//! Command line parsing.
//!
//! The command line is compatible with Apple's ld64: options are
//! single-dash long names, and input files and `-l` options are
//! position-dependent.
use crate::args::{Args, ArgsView, InputArg, InputView, Switches};
use crate::macho::consts::{MH_EXECUTE, PLATFORM_MACOS};
use crate::options::{
    apply_switch, canonical_name, find_exponent, find_slot, find_switch, list_kinds, parse_hex,
    parse_platform, parse_prot, parse_version, ArgKind, FileSlot, InputSlot, OneSlot, PushSlot,
    Slot, TupleSlot, ValueSlot,
};
use crate::util::text;
use crate::util::text::{push_name, push_names};
use crate::util::{bytes, glob};
use vstd::prelude::*;
use vstd::string::*;

verus! {

/// The version of ld64 whose options are understood.
pub const LD64_COMPAT_VERSION: &'static str = "1267";

/// What is wrong with a command line.
#[derive(Clone, Copy, Debug, PartialEq, Eq, Structural)]
pub enum Problem {
    /// An option's argument is missing.
    Missing,
    /// An argument is not UTF-8 text.
    NotText,
    UnsupportedTarget,
    UnsupportedPlatform,
    MalformedVersion,
    MalformedNumber,
    InvalidProtection,
    /// An unknown treatment of undefined symbols.
    UnsupportedTreatment,
    /// An alignment is not a power of two.
    NotPowerOfTwo,
    /// A file cannot be read.
    CannotRead,
    /// A line of an alias list is malformed.
    MalformedAlias,
    /// A pattern opens a set of bytes that nothing closes.
    InvalidPattern,
    /// An unknown option.
    Unknown,
    /// -pagezero_size is only for main executables.
    PagezeroNotExecutable,
    /// -sdk_imports cannot be used with -r.
    SdkImportsRelocatable,
    /// -no_exported_symbols cannot be used with other export options.
    ExportsConflict,
}

/// A problem and the position of the argument that has it.
#[derive(Clone, Copy, Debug, PartialEq, Eq, Structural)]
pub struct ArgError {
    pub problem: Problem,
    pub at: usize,
}

/// A file that the command line names, and what it holds if it can be read.
#[derive(Debug)]
pub struct FileText {
    pub path: Vec<u8>,
    pub contents: Option<Vec<u8>>,
}

impl View for FileText {
    type V = (Seq<u8>, Option<Seq<u8>>);

    open spec fn view(&self) -> (Seq<u8>, Option<Seq<u8>>) {
        (self.path@, crate::args::opt_view(self.contents))
    }
}

pub open spec fn file_views(v: Seq<FileText>) -> Seq<(Seq<u8>, Option<Seq<u8>>)> {
    v.map_values(|f: FileText| f@)
}

/// What the file at a path holds, from the `i`th file on.
pub open spec fn file_from(
    files: Seq<(Seq<u8>, Option<Seq<u8>>)>,
    path: Seq<u8>,
    i: int,
) -> Option<Seq<u8>>
    decreases files.len() - i,
{
    if i < 0 || i >= files.len() {
        None
    } else if files[i].0 == path {
        files[i].1
    } else {
        file_from(files, path, i + 1)
    }
}

/// Finds what the file at a path holds.
fn find_file<'a>(files: &'a Vec<FileText>, path: &[u8]) -> (r: Option<&'a Vec<u8>>)
    ensures
        match r {
            Some(c) => file_from(file_views(files@), path@, 0) == Some(c@),
            None => file_from(file_views(files@), path@, 0) is None,
        },
{
    let ghost fv = file_views(files@);
    let mut i: usize = 0;
    while i < files.len()
        invariant
            i <= files.len(),
            fv == file_views(files@),
            file_from(fv, path@, 0) == file_from(fv, path@, i as int),
        decreases files.len() - i,
    {
        assert(fv[i as int] == files[i as int]@);
        if bytes::same(files[i].path.as_slice(), path) {
            return match &files[i].contents {
                Some(c) => Some(c),
                None => None,
            };
        }
        i += 1;
    }
    None
}

/// Finds the first occurrence of a byte with `memchr::memchr`: its position,
/// or `None` if the byte does not occur.
#[verifier::external_body]
fn first_byte(needle: u8, haystack: &[u8]) -> (r: Option<usize>)
    ensures
        match r {
            Some(i) => i == bytes::index_of_byte(haystack@, needle, 0) && i < haystack.len(),
            None => bytes::index_of_byte(haystack@, needle, 0) == haystack.len(),
        },
{
    memchr::memchr(needle, haystack)
}

/// The path part of a -filelist argument.
pub open spec fn filelist_path(arg: Seq<u8>) -> Seq<u8> {
    text::before_byte(arg, 44)
}

/// A path in a directory, as `Path::join` makes it.
pub open spec fn joined(dir: Seq<u8>, name: Seq<u8>) -> Seq<u8> {
    if name.len() > 0 && name[0] == 47 {
        name
    } else if dir.len() > 0 && dir.last() != 47 {
        dir + seq![47u8] + name
    } else {
        dir + name
    }
}

/// Joins a directory and a name.
pub fn join_path(dir: &[u8], name: &[u8]) -> (r: Vec<u8>)
    ensures
        r@ == joined(dir@, name@),
{
    if name.len() > 0 && name[0] == 47 {
        return bytes::to_vec(name);
    }
    let mut out: Vec<u8> = bytes::to_vec(dir);
    if dir.len() > 0 && dir[dir.len() - 1] != 47 {
        out.push(47);
    }
    bytes::append(&mut out, name);
    assert(out@ =~= joined(dir@, name@));
    out
}

/// A line without a carriage return at its end.
pub open spec fn without_cr(line: Seq<u8>) -> Seq<u8> {
    if line.len() > 0 && line.last() == 13 {
        line.drop_last()
    } else {
        line
    }
}

/// The inputs that the lines of a file list name.
pub open spec fn file_inputs(lines: Seq<Seq<u8>>, dir: Option<Seq<u8>>) -> Seq<InputView>
    decreases lines.len(),
{
    if lines.len() == 0 {
        Seq::empty()
    } else {
        let before = file_inputs(lines.drop_last(), dir);
        let line = without_cr(lines.last());
        if line.len() == 0 {
            before
        } else {
            before.push(
                InputView::File(
                    match dir {
                        Some(d) => joined(d, line),
                        None => line,
                    },
                ),
            )
        }
    }
}

/// The inputs of a -filelist option: one path per line, under the directory
/// behind the argument's first comma, if there is one.
pub open spec fn filelist_inputs(arg: Seq<u8>, contents: Seq<u8>) -> Seq<InputView> {
    let comma = bytes::index_of_byte(arg, 44, 0);
    file_inputs(
        text::split(contents, 10),
        if comma < arg.len() {
            Some(arg.skip(comma + 1))
        } else {
            None
        },
    )
}

/// Reads a -filelist file's contents, adding its paths to the inputs.
pub fn read_filelist(arg: &[u8], contents: &[u8], out: &mut Vec<InputArg>)
    ensures
        crate::args::input_views(final(out)@) == crate::args::input_views(old(out)@)
            + filelist_inputs(arg@, contents@),
{
    let dir: Option<Vec<u8>> = match first_byte(44, arg) {
        Some(comma) => {
            let d: Vec<u8> = bytes::copy_range(arg, comma + 1, arg.len());
            assert(d@ =~= arg@.skip(comma + 1));
            Some(d)
        },
        None => None,
    };
    let ghost dv = crate::args::opt_view(dir);
    let lines: Vec<Vec<u8>> = text::split_at(contents, 10);
    let ghost lv = bytes::views(lines@);
    let ghost start = crate::args::input_views(out@);
    let mut i: usize = 0;
    proof {
        assert(lv.take(0) =~= Seq::<Seq<u8>>::empty());
        assert(start + Seq::<InputView>::empty() =~= start);
    }
    while i < lines.len()
        invariant
            i <= lines.len(),
            lv == bytes::views(lines@),
            dv == crate::args::opt_view(dir),
            crate::args::input_views(out@) == start + file_inputs(lv.take(i as int), dv),
        decreases lines.len() - i,
    {
        assert(lv.take(i + 1).drop_last() =~= lv.take(i as int));
        assert(lv[i as int] == lines[i as int]@);
        let ghost before = crate::args::input_views(out@);
        let n: usize = lines[i].len();
        let end: usize = if n > 0 && lines[i][n - 1] == 13 {
            n - 1
        } else {
            n
        };
        let line: Vec<u8> = bytes::copy_range(lines[i].as_slice(), 0, end);
        assert(line@ =~= without_cr(lv[i as int]));
        if line.len() > 0 {
            let path: Vec<u8> = match &dir {
                Some(d) => join_path(d.as_slice(), line.as_slice()),
                None => line,
            };
            let input = InputArg::File(path);
            let ghost iv = input@;
            out.push(input);
            assert(crate::args::input_views(out@) =~= before.push(iv));
            assert(before.push(iv) =~= start + file_inputs(lv.take(i as int), dv).push(iv));
        }
        i += 1;
    }
    assert(lv.take(i as int) =~= lv);
}

/// The aliases of the lines of an alias list, or `None` if a line is
/// malformed.
pub open spec fn aliases_of(lines: Seq<Seq<u8>>, i: int, acc: Seq<(Seq<u8>, Seq<u8>)>) -> Option<
    Seq<(Seq<u8>, Seq<u8>)>,
>
    decreases lines.len() - i,
{
    if i < 0 || i >= lines.len() {
        Some(acc)
    } else {
        let w = text::words(lines[i]);
        if w.len() < 2 {
            None
        } else {
            aliases_of(lines, i + 1, acc.push((w[0], w[1])))
        }
    }
}

/// Reads an alias list, adding to the aliases.
fn read_aliases(contents: &[u8], aliases: Vec<(Vec<u8>, Vec<u8>)>) -> (r: Option<
    Vec<(Vec<u8>, Vec<u8>)>,
>)
    ensures
        match r {
            Some(v) => aliases_of(
                text::list_entries(contents@),
                0,
                crate::args::pair_views(aliases@),
            ) == Some(crate::args::pair_views(v@)),
            None => aliases_of(
                text::list_entries(contents@),
                0,
                crate::args::pair_views(aliases@),
            ) is None,
        },
{
    let lines: Vec<Vec<u8>> = text::symbol_list(contents);
    let ghost lv = bytes::views(lines@);
    let ghost start = crate::args::pair_views(aliases@);
    let mut out: Vec<(Vec<u8>, Vec<u8>)> = aliases;
    let mut i: usize = 0;
    while i < lines.len()
        invariant
            i <= lines.len(),
            lv == bytes::views(lines@),
            lv == text::list_entries(contents@),
            start == crate::args::pair_views(aliases@),
            aliases_of(lv, 0, start) == aliases_of(
                lv,
                i as int,
                crate::args::pair_views(out@),
            ),
        decreases lines.len() - i,
    {
        assert(lv[i as int] == lines[i as int]@);
        let ghost before = crate::args::pair_views(out@);
        let words: Vec<Vec<u8>> = text::split_words(lines[i].as_slice());
        assert(bytes::views(words@).len() == words.len());
        if words.len() < 2 {
            return None;
        }
        let a: Vec<u8> = bytes::to_vec(words[0].as_slice());
        let b: Vec<u8> = bytes::to_vec(words[1].as_slice());
        let ghost pair = (a@, b@);
        out.push((a, b));
        assert(crate::args::pair_views(out@) =~= before.push(pair));
        i += 1;
    }
    Some(out)
}

/// Whether an alias list is malformed does not depend on what precedes it.
proof fn lemma_aliases_start(
    lines: Seq<Seq<u8>>,
    i: int,
    a: Seq<(Seq<u8>, Seq<u8>)>,
    b: Seq<(Seq<u8>, Seq<u8>)>,
)
    ensures
        (aliases_of(lines, i, a) is Some) == (aliases_of(lines, i, b) is Some),
    decreases lines.len() - i,
{
    if 0 <= i < lines.len() {
        let w = text::words(lines[i]);
        if w.len() >= 2 {
            lemma_aliases_start(lines, i + 1, a.push((w[0], w[1])), b.push((w[0], w[1])));
        }
    }
}

/// What is wrong with an option's argument, if anything.
#[verifier::opaque]
pub open spec fn problem_of(
    kind: ArgKind,
    arg: Seq<u8>,
    files: Seq<(Seq<u8>, Option<Seq<u8>>)>,
) -> Option<Problem> {
    match kind {
        ArgKind::Raw => None,
        ArgKind::FileList => match file_from(files, filelist_path(arg), 0) {
            None => Some(Problem::CannotRead),
            Some(c) => None,
        },
        ArgKind::ListFile => match file_from(files, arg, 0) {
            None => Some(Problem::CannotRead),
            Some(c) => if !text::is_text(c) {
                Some(Problem::CannotRead)
            } else if !glob::all_valid(text::list_entries(c)) {
                Some(Problem::InvalidPattern)
            } else {
                None
            },
        },
        ArgKind::AliasFile => match file_from(files, arg, 0) {
            None => Some(Problem::CannotRead),
            Some(c) => if !text::is_text(c) {
                Some(Problem::CannotRead)
            } else if aliases_of(text::list_entries(c), 0, Seq::empty()) is None {
                Some(Problem::MalformedAlias)
            } else {
                None
            },
        },
        _ => if !text::is_text(arg) {
            Some(Problem::NotText)
        } else {
            text_problem(kind, arg)
        },
    }
}

/// What is wrong with an argument that is text.
pub open spec fn text_problem(kind: ArgKind, arg: Seq<u8>) -> Option<Problem> {
    match kind {
        ArgKind::Target => if crate::options::target_named(arg) is None {
            Some(Problem::UnsupportedTarget)
        } else {
            None
        },
        ArgKind::Platform => if crate::options::platform_named(arg) is None {
            Some(Problem::UnsupportedPlatform)
        } else {
            None
        },
        ArgKind::Version => if crate::options::version_of(arg) is None {
            Some(Problem::MalformedVersion)
        } else {
            None
        },
        ArgKind::Hex => if crate::options::hex_of(arg) is None {
            Some(Problem::MalformedNumber)
        } else {
            None
        },
        ArgKind::Prot => if crate::options::prot_from(arg, 0, 0) is None {
            Some(Problem::InvalidProtection)
        } else {
            None
        },
        ArgKind::Treatment => if treatment_of(arg) is None {
            Some(Problem::UnsupportedTreatment)
        } else {
            None
        },
        ArgKind::Align => match crate::options::hex_of(arg) {
            None => Some(Problem::MalformedNumber),
            Some(n) => if crate::options::exponent(n) is None {
                Some(Problem::NotPowerOfTwo)
            } else {
                None
            },
        },
        ArgKind::Pattern => if !glob::is_valid(arg) {
            Some(Problem::InvalidPattern)
        } else {
            None
        },
        _ => None,
    }
}

/// A treatment of undefined symbols: (dynamic lookup, reported, reported as
/// a warning); what is not set stays as it was.
pub open spec fn treatment_of(arg: Seq<u8>) -> Option<(bool, bool, bool)> {
    if arg == "error".spec_bytes() {
        Some((false, false, false))
    } else if arg == "dynamic_lookup".spec_bytes() {
        Some((true, false, false))
    } else if arg == "warning".spec_bytes() {
        Some((true, true, true))
    } else if arg == "suppress".spec_bytes() {
        Some((true, true, false))
    } else {
        None
    }
}

/// Reads a treatment of undefined symbols.
fn parse_treatment(arg: &[u8]) -> (r: Option<(bool, bool, bool)>)
    ensures
        r == treatment_of(arg@),
{
    if bytes::same(arg, "error".as_bytes()) {
        Some((false, false, false))
    } else if bytes::same(arg, "dynamic_lookup".as_bytes()) {
        Some((true, false, false))
    } else if bytes::same(arg, "warning".as_bytes()) {
        Some((true, true, true))
    } else if bytes::same(arg, "suppress".as_bytes()) {
        Some((true, true, false))
    } else {
        None
    }
}

fn check_text_arg(kind: ArgKind, arg: &[u8]) -> (r: Option<Problem>)
    ensures
        r == text_problem(kind, arg@),
{
    match kind {
        ArgKind::Target => match canonical_name(arg) {
            None => Some(Problem::UnsupportedTarget),
            Some(_t) => None,
        },
        ArgKind::Platform => match parse_platform(arg) {
            None => Some(Problem::UnsupportedPlatform),
            Some(_t) => None,
        },
        ArgKind::Version => match parse_version(arg) {
            None => Some(Problem::MalformedVersion),
            Some(_t) => None,
        },
        ArgKind::Hex => match parse_hex(arg) {
            None => Some(Problem::MalformedNumber),
            Some(_t) => None,
        },
        ArgKind::Prot => match parse_prot(arg) {
            None => Some(Problem::InvalidProtection),
            Some(_t) => None,
        },
        ArgKind::Treatment => match parse_treatment(arg) {
            None => Some(Problem::UnsupportedTreatment),
            Some(_t) => None,
        },
        ArgKind::Align => match parse_hex(arg) {
            None => Some(Problem::MalformedNumber),
            Some(n) => match find_exponent(n) {
                None => Some(Problem::NotPowerOfTwo),
                Some(_p) => None,
            },
        },
        ArgKind::Pattern => if !glob::check_pattern(arg) {
            Some(Problem::InvalidPattern)
        } else {
            None
        },
        _ => None,
    }
}

/// Checks an option's argument.
fn check_arg(kind: ArgKind, arg: &[u8], files: &Vec<FileText>) -> (r: Option<Problem>)
    ensures
        r == problem_of(kind, arg@, file_views(files@)),
{
    proof {
        reveal(problem_of);
    }
    match kind {
        ArgKind::Raw => None,
        ArgKind::FileList => {
            let end: usize = match first_byte(44, arg) {
                Some(i) => i,
                None => arg.len(),
            };
            let path = vstd::slice::slice_subrange(arg, 0, end);
            assert(path@ =~= filelist_path(arg@));
            match find_file(files, path) {
                None => Some(Problem::CannotRead),
                Some(_c) => None,
            }
        },
        ArgKind::ListFile => match find_file(files, arg) {
            None => Some(Problem::CannotRead),
            Some(c) => if !text::check_text(c.as_slice()) {
                Some(Problem::CannotRead)
            } else if !glob::check_patterns(&text::symbol_list(c.as_slice())) {
                Some(Problem::InvalidPattern)
            } else {
                None
            },
        },
        ArgKind::AliasFile => match find_file(files, arg) {
            None => Some(Problem::CannotRead),
            Some(c) => {
                if !text::check_text(c.as_slice()) {
                    return Some(Problem::CannotRead);
                }
                let none: Vec<(Vec<u8>, Vec<u8>)> = Vec::new();
                assert(crate::args::pair_views(none@) =~= Seq::empty());
                match read_aliases(c.as_slice(), none) {
                    None => Some(Problem::MalformedAlias),
                    Some(_v) => None,
                }
            },
        },
        _ => {
            if !text::check_text(arg) {
                return Some(Problem::NotText);
            }
            check_text_arg(kind, arg)
        },
    }
}

/// What is wrong with the arguments of the option at `i`, from the `k`th on.
pub open spec fn args_problem(
    cmd: Seq<Seq<u8>>,
    files: Seq<(Seq<u8>, Option<Seq<u8>>)>,
    i: int,
    kinds: Seq<ArgKind>,
    k: int,
) -> Option<ArgError>
    decreases kinds.len() - k,
{
    if k < 0 || k >= kinds.len() {
        None
    } else if i + 1 + k >= cmd.len() {
        Some(ArgError { problem: Problem::Missing, at: (i + 1 + k) as usize })
    } else {
        match problem_of(kinds[k], cmd[i + 1 + k], files) {
            Some(p) => Some(ArgError { problem: p, at: (i + 1 + k) as usize }),
            None => args_problem(cmd, files, i, kinds, k + 1),
        }
    }
}

/// Checks the arguments of the option at `i`.
fn check_args(cmd: &Vec<Vec<u8>>, files: &Vec<FileText>, i: usize, kinds: &Vec<ArgKind>) -> (r:
    Option<ArgError>)
    requires
        i < cmd.len(),
        kinds.len() <= 4,
    ensures
        r == args_problem(bytes::views(cmd@), file_views(files@), i as int, kinds@, 0),
        r is None ==> i + kinds.len() < cmd.len(),
{
    let ghost cv = bytes::views(cmd@);
    let mut k: usize = 0;
    while k < kinds.len()
        invariant
            k <= kinds.len(),
            kinds.len() <= 4,
            cv == bytes::views(cmd@),
            i + k < cmd.len(),
            args_problem(cv, file_views(files@), i as int, kinds@, 0) == args_problem(
                cv,
                file_views(files@),
                i as int,
                kinds@,
                k as int,
            ),
        decreases kinds.len() - k,
    {
        if cmd.len() - i - k <= 1 {
            return Some(ArgError { problem: Problem::Missing, at: i + k + 1 });
        }
        assert(cv[i + k + 1] == cmd[i + k + 1]@);
        match check_arg(kinds[k], cmd[i + k + 1].as_slice(), files) {
            Some(p) => return Some(ArgError { problem: p, at: i + k + 1 }),
            None => {},
        }
        k += 1;
    }
    None
}

/// The list of an option that may not have been given yet.
pub open spec fn started(o: Option<Seq<Seq<u8>>>) -> Seq<Seq<u8>> {
    match o {
        Some(v) => v,
        None => Seq::empty(),
    }
}

fn start_list(o: Option<Vec<Vec<u8>>>) -> (r: Vec<Vec<u8>>)
    ensures
        bytes::views(r@) == started(crate::args::opt_views(o)),
{
    match o {
        Some(v) => v,
        None => {
            let v: Vec<Vec<u8>> = Vec::new();
            assert(bytes::views(v@) =~= Seq::<Seq<u8>>::empty());
            v
        },
    }
}

/// The arguments after an option that sets one value.
#[verifier::opaque]
pub open spec fn set_one(a: ArgsView, slot: OneSlot, v: Seq<u8>) -> ArgsView {
    match slot {
        OneSlot::Output => ArgsView { output: v, ..a },
        OneSlot::Entry => ArgsView { entry: v, ..a },
        OneSlot::InstallName => ArgsView { install_name: Some(v), ..a },
        OneSlot::FinalOutput => ArgsView { final_output: Some(v), ..a },
        OneSlot::BundleLoader => ArgsView { bundle_loader: Some(v), ..a },
        OneSlot::MapFile => ArgsView { map: Some(v), ..a },
        OneSlot::SdkImports => ArgsView { sdk_imports: Some(v), ..a },
        OneSlot::LtoLibrary => ArgsView { lto_library: Some(v), ..a },
        OneSlot::DependencyInfo => ArgsView { dependency_info: Some(v), ..a },
        OneSlot::ObjectPathLto => ArgsView { object_path_lto: Some(v), ..a },
        OneSlot::ExecutablePath => ArgsView { executable_path: Some(v), ..a },
        OneSlot::Umbrella => ArgsView { umbrella: Some(v), ..a },
        OneSlot::OsoPrefix => ArgsView { oso_prefix: Some(v), ..a },
        OneSlot::ClientName => ArgsView { client_name: Some(v), ..a },
        OneSlot::Ignored => a,
    }
}

/// Acts on an option that sets one value.
fn store_one(args: Args, slot: OneSlot, v: Vec<u8>) -> (r: Args)
    ensures
        r@ == set_one(args@, slot, v@),
{
    proof {
        reveal(set_one);
    }
    let mut a: Args = args;
    let ghost before = a@;
    let ghost vv = v@;
    match slot {
        OneSlot::Output => {
            a.output = v;
            assert(a@ =~= set_one(before, slot, vv));
        },
        OneSlot::Entry => {
            a.entry = v;
            assert(a@ =~= set_one(before, slot, vv));
        },
        OneSlot::InstallName => {
            a.install_name = Some(v);
            assert(a@ =~= set_one(before, slot, vv));
        },
        OneSlot::FinalOutput => {
            a.final_output = Some(v);
            assert(a@ =~= set_one(before, slot, vv));
        },
        OneSlot::BundleLoader => {
            a.bundle_loader = Some(v);
            assert(a@ =~= set_one(before, slot, vv));
        },
        OneSlot::MapFile => {
            a.map = Some(v);
            assert(a@ =~= set_one(before, slot, vv));
        },
        OneSlot::SdkImports => {
            a.sdk_imports = Some(v);
            assert(a@ =~= set_one(before, slot, vv));
        },
        OneSlot::LtoLibrary => {
            a.lto_library = Some(v);
            assert(a@ =~= set_one(before, slot, vv));
        },
        OneSlot::DependencyInfo => {
            a.dependency_info = Some(v);
            assert(a@ =~= set_one(before, slot, vv));
        },
        OneSlot::ObjectPathLto => {
            a.object_path_lto = Some(v);
            assert(a@ =~= set_one(before, slot, vv));
        },
        OneSlot::ExecutablePath => {
            a.executable_path = Some(v);
            assert(a@ =~= set_one(before, slot, vv));
        },
        OneSlot::Umbrella => {
            a.umbrella = Some(v);
            assert(a@ =~= set_one(before, slot, vv));
        },
        OneSlot::OsoPrefix => {
            a.oso_prefix = Some(v);
            assert(a@ =~= set_one(before, slot, vv));
        },
        OneSlot::ClientName => {
            a.client_name = Some(v);
            assert(a@ =~= set_one(before, slot, vv));
        },
        OneSlot::Ignored => {},
    }
    a
}

/// The arguments after an option that adds to a list.
#[verifier::opaque]
pub open spec fn push_one(a: ArgsView, slot: PushSlot, v: Seq<u8>) -> ArgsView {
    match slot {
        PushSlot::Syslibroot => ArgsView { syslibroot: a.syslibroot.push(v), ..a },
        PushSlot::LibraryPath => ArgsView { library_paths: a.library_paths.push(v), ..a },
        PushSlot::FrameworkPath => ArgsView { framework_paths: a.framework_paths.push(v), ..a },
        PushSlot::Rpath => ArgsView { rpaths: a.rpaths.push(v), ..a },
        PushSlot::AstPath => ArgsView { add_ast_paths: a.add_ast_paths.push(v), ..a },
        PushSlot::ForcedUndefined => ArgsView { forced_undefined: a.forced_undefined.push(v), ..a },
        PushSlot::AllowedUndefined => ArgsView { allowed_undefined: a.allowed_undefined.push(v), ..a },
        PushSlot::OrderFile => ArgsView { order_files: a.order_files.push(v), ..a },
        PushSlot::AllowableClient => ArgsView { allowable_clients: a.allowable_clients.push(v), ..a },
        PushSlot::UnexportedSymbol => ArgsView { unexported_symbols: a.unexported_symbols.push(v), ..a },
        PushSlot::WhyLive => ArgsView { why_live: a.why_live.push(v), ..a },
        PushSlot::ExportedSymbol => ArgsView { exported_symbols: Some(started(a.exported_symbols).push(v)), ..a },
    }
}

/// Acts on an option that adds to a list.
fn store_push(args: Args, slot: PushSlot, v: Vec<u8>) -> (r: Args)
    ensures
        r@ == push_one(args@, slot, v@),
{
    proof {
        reveal(push_one);
    }
    let mut a: Args = args;
    let ghost before = a@;
    let ghost vv = v@;
    match slot {
        PushSlot::Syslibroot => {
            push_name(&mut a.syslibroot, v);
            assert(a@ =~= push_one(before, slot, vv));
        },
        PushSlot::LibraryPath => {
            push_name(&mut a.library_paths, v);
            assert(a@ =~= push_one(before, slot, vv));
        },
        PushSlot::FrameworkPath => {
            push_name(&mut a.framework_paths, v);
            assert(a@ =~= push_one(before, slot, vv));
        },
        PushSlot::Rpath => {
            push_name(&mut a.rpaths, v);
            assert(a@ =~= push_one(before, slot, vv));
        },
        PushSlot::AstPath => {
            push_name(&mut a.add_ast_paths, v);
            assert(a@ =~= push_one(before, slot, vv));
        },
        PushSlot::ForcedUndefined => {
            push_name(&mut a.forced_undefined, v);
            assert(a@ =~= push_one(before, slot, vv));
        },
        PushSlot::AllowedUndefined => {
            push_name(&mut a.allowed_undefined, v);
            assert(a@ =~= push_one(before, slot, vv));
        },
        PushSlot::OrderFile => {
            push_name(&mut a.order_files, v);
            assert(a@ =~= push_one(before, slot, vv));
        },
        PushSlot::AllowableClient => {
            push_name(&mut a.allowable_clients, v);
            assert(a@ =~= push_one(before, slot, vv));
        },
        PushSlot::UnexportedSymbol => {
            push_name(&mut a.unexported_symbols, v);
            assert(a@ =~= push_one(before, slot, vv));
        },
        PushSlot::WhyLive => {
            push_name(&mut a.why_live, v);
            assert(a@ =~= push_one(before, slot, vv));
        },
        PushSlot::ExportedSymbol => {
            let mut list: Vec<Vec<u8>> = start_list(a.exported_symbols);
            push_name(&mut list, v);
            a.exported_symbols = Some(list);
            assert(a@ =~= push_one(before, slot, vv));
        },
    }
    a
}

/// The input that an option names.
pub open spec fn input_of(slot: InputSlot, v: Seq<u8>) -> InputView {
    match slot {
        InputSlot::Lib => InputView::Lib(v, false),
        InputSlot::Framework => InputView::Framework(v, false),
        InputSlot::WeakFramework => InputView::Framework(v, true),
        InputSlot::ReexportFramework => InputView::ReexportFramework(v),
        InputSlot::NeededFramework => InputView::NeededFramework(v),
        InputSlot::NeededFile => InputView::NeededFile(v),
        InputSlot::WeakFile => InputView::WeakFile(v),
        InputSlot::ReexportFile => InputView::ReexportFile(v),
        InputSlot::ReexportLib => InputView::ReexportLib(v),
        InputSlot::ForceLoad => InputView::ForceLoad(v),
    }
}

/// Makes the input that an option names.
fn make_input(slot: InputSlot, v: Vec<u8>) -> (r: InputArg)
    ensures
        r@ == input_of(slot, v@),
{
    match slot {
        InputSlot::Lib => InputArg::Lib(v, false),
        InputSlot::Framework => InputArg::Framework(v, false),
        InputSlot::WeakFramework => InputArg::Framework(v, true),
        InputSlot::ReexportFramework => InputArg::ReexportFramework(v),
        InputSlot::NeededFramework => InputArg::NeededFramework(v),
        InputSlot::NeededFile => InputArg::NeededFile(v),
        InputSlot::WeakFile => InputArg::WeakFile(v),
        InputSlot::ReexportFile => InputArg::ReexportFile(v),
        InputSlot::ReexportLib => InputArg::ReexportLib(v),
        InputSlot::ForceLoad => InputArg::ForceLoad(v),
    }
}

/// The value of a hexadecimal argument.
pub open spec fn hex_value(v: Seq<u8>) -> u64 {
    match crate::options::hex_of(v) {
        Some(n) => n as u64,
        None => 0,
    }
}

/// The value of a version argument.
pub open spec fn version_value(v: Seq<u8>) -> u32 {
    match crate::options::version_of(v) {
        Some(n) => n,
        None => 0,
    }
}

fn to_hex(v: &[u8]) -> (r: u64)
    ensures
        r == hex_value(v@),
{
    match parse_hex(v) {
        Some(n) => n,
        None => 0,
    }
}

fn to_version(v: &[u8]) -> (r: u32)
    ensures
        r == version_value(v@),
{
    match parse_version(v) {
        Some(n) => n,
        None => 0,
    }
}

/// The switches after an option that sets them from its arguments.
#[verifier::opaque]
pub open spec fn valued(s: Switches, slot: ValueSlot, v: Seq<Seq<u8>>) -> Switches {
    match slot {
        ValueSlot::Arch => Switches { arch: crate::options::target_named(v[0]), ..s },
        ValueSlot::Headerpad => Switches { headerpad: hex_value(v[0]), ..s },
        ValueSlot::PagezeroSize => Switches {
            pagezero_size: hex_value(v[0]),
            explicit_pagezero: true,
            ..s
        },
        ValueSlot::ImageBase => Switches { image_base: Some(hex_value(v[0])), ..s },
        ValueSlot::StackSize => Switches { stack_size: hex_value(v[0]), ..s },
        ValueSlot::CurrentVersion => Switches { current_version: version_value(v[0]), ..s },
        ValueSlot::CompatibilityVersion => Switches {
            compatibility_version: version_value(v[0]),
            ..s
        },
        ValueSlot::MacosVersionMin => Switches {
            platform: PLATFORM_MACOS,
            platform_minos: version_value(v[0]),
            ..s
        },
        ValueSlot::Undefined => match treatment_of(v[0]) {
            Some((dynamic, reported, warning)) => if reported {
                Switches {
                    undefined_dynamic_lookup: dynamic,
                    undefined_warning: true,
                    undefined_is_warning: warning,
                    ..s
                }
            } else {
                Switches { undefined_dynamic_lookup: dynamic, ..s }
            },
            None => s,
        },
        ValueSlot::PlatformVersion => Switches {
            platform: match crate::options::platform_named(v[0]) {
                Some(p) => p,
                None => s.platform,
            },
            platform_minos: version_value(v[1]),
            platform_sdk: version_value(v[2]),
            ..s
        },
    }
}

/// Acts on an option that sets switches from its arguments.
fn apply_value(s: Switches, slot: ValueSlot, v: &Vec<Vec<u8>>) -> (r: Switches)
    requires
        v.len() >= 1,
        slot == ValueSlot::PlatformVersion ==> v.len() >= 3,
    ensures
        r == valued(s, slot, bytes::views(v@)),
{
    proof {
        reveal(valued);
    }
    assert(bytes::views(v@)[0] == v[0]@);
    match slot {
        ValueSlot::Arch => Switches { arch: canonical_name(v[0].as_slice()), ..s },
        ValueSlot::Headerpad => Switches { headerpad: to_hex(v[0].as_slice()), ..s },
        ValueSlot::PagezeroSize => Switches {
            pagezero_size: to_hex(v[0].as_slice()),
            explicit_pagezero: true,
            ..s
        },
        ValueSlot::ImageBase => Switches { image_base: Some(to_hex(v[0].as_slice())), ..s },
        ValueSlot::StackSize => Switches { stack_size: to_hex(v[0].as_slice()), ..s },
        ValueSlot::CurrentVersion => Switches {
            current_version: to_version(v[0].as_slice()),
            ..s
        },
        ValueSlot::CompatibilityVersion => Switches {
            compatibility_version: to_version(v[0].as_slice()),
            ..s
        },
        ValueSlot::MacosVersionMin => Switches {
            platform: PLATFORM_MACOS,
            platform_minos: to_version(v[0].as_slice()),
            ..s
        },
        ValueSlot::Undefined => match parse_treatment(v[0].as_slice()) {
            Some((dynamic, reported, warning)) => if reported {
                Switches {
                    undefined_dynamic_lookup: dynamic,
                    undefined_warning: true,
                    undefined_is_warning: warning,
                    ..s
                }
            } else {
                Switches { undefined_dynamic_lookup: dynamic, ..s }
            },
            None => s,
        },
        ValueSlot::PlatformVersion => {
            assert(bytes::views(v@)[1] == v[1]@);
            assert(bytes::views(v@)[2] == v[2]@);
            let p: u32 = match parse_platform(v[0].as_slice()) {
                Some(p) => p,
                None => s.platform,
            };
            Switches {
                platform: p,
                platform_minos: to_version(v[1].as_slice()),
                platform_sdk: to_version(v[2].as_slice()),
                ..s
            }
        },
    }
}

/// The value of a protection argument.
pub open spec fn prot_value(v: Seq<u8>) -> u8 {
    match crate::options::prot_from(v, 0, 0) {
        Some(p) => p,
        None => 0,
    }
}

fn to_prot(v: &[u8]) -> (r: u8)
    ensures
        r == prot_value(v@),
{
    match parse_prot(v) {
        Some(p) => p,
        None => 0,
    }
}

/// The value of an alignment argument: the exponent of a power of two.
pub open spec fn align_value(v: Seq<u8>) -> u8 {
    match crate::options::exponent(hex_value(v) as int) {
        Some(p) => p as u8,
        None => 0,
    }
}

fn to_align(v: &[u8]) -> (r: u8)
    ensures
        r == align_value(v@),
{
    match find_exponent(to_hex(v)) {
        Some(p) => p,
        None => 0,
    }
}

/// The parts that are not empty.
pub open spec fn nonempty(parts: Seq<Seq<u8>>) -> Seq<Seq<u8>>
    decreases parts.len(),
{
    if parts.len() == 0 {
        Seq::empty()
    } else if parts.last().len() == 0 {
        nonempty(parts.drop_last())
    } else {
        nonempty(parts.drop_last()).push(parts.last())
    }
}

fn split_order(v: &[u8]) -> (r: Vec<Vec<u8>>)
    ensures
        bytes::views(r@) == nonempty(text::split(v@, 58)),
{
    let parts: Vec<Vec<u8>> = text::split_at(v, 58);
    let ghost pv = bytes::views(parts@);
    let mut out: Vec<Vec<u8>> = Vec::new();
    let mut i: usize = 0;
    proof {
        assert(pv.take(0) =~= Seq::<Seq<u8>>::empty());
        assert(bytes::views(out@) =~= Seq::<Seq<u8>>::empty());
    }
    while i < parts.len()
        invariant
            i <= parts.len(),
            pv == bytes::views(parts@),
            bytes::views(out@) == nonempty(pv.take(i as int)),
        decreases parts.len() - i,
    {
        assert(pv.take(i + 1).drop_last() =~= pv.take(i as int));
        assert(pv[i as int] == parts[i as int]@);
        if parts[i].len() > 0 {
            push_name(&mut out, bytes::to_vec(parts[i].as_slice()));
        }
        i += 1;
    }
    assert(pv.take(i as int) =~= pv);
    out
}

/// The arguments after an option that takes a group of arguments.
#[verifier::opaque]
pub open spec fn grouped(a: ArgsView, slot: TupleSlot, v: Seq<Seq<u8>>) -> ArgsView {
    match slot {
        TupleSlot::Segaddr => ArgsView {
            segaddrs: a.segaddrs.push((v[0], hex_value(v[1]))),
            ..a
        },
        TupleSlot::Segprot => ArgsView {
            segprots: a.segprots.push((v[0], prot_value(v[1]), prot_value(v[2]))),
            ..a
        },
        TupleSlot::SegmentOrder => ArgsView {
            segment_order: nonempty(text::split(v[0], 58)),
            ..a
        },
        TupleSlot::RenameSection => ArgsView {
            rename_sections: a.rename_sections.push((v[0], v[1], v[2], v[3])),
            ..a
        },
        TupleSlot::RenameSegment => ArgsView {
            rename_segments: a.rename_segments.push((v[0], v[1])),
            ..a
        },
        TupleSlot::Sectcreate => ArgsView {
            sectcreate: a.sectcreate.push((v[0], v[1], v[2])),
            ..a
        },
        TupleSlot::AddEmptySection => ArgsView {
            add_empty_section: a.add_empty_section.push((v[0], v[1])),
            ..a
        },
        TupleSlot::Sectalign => ArgsView {
            sectalign: a.sectalign.push((v[0], v[1], align_value(v[2]))),
            ..a
        },
        TupleSlot::Alias => ArgsView { aliases: a.aliases.push((v[0], v[1])), ..a },
    }
}

fn copied(v: &Vec<Vec<u8>>, i: usize) -> (r: Vec<u8>)
    requires
        i < v.len(),
    ensures
        r@ == bytes::views(v@)[i as int],
{
    bytes::to_vec(v[i].as_slice())
}

fn push_pair(list: &mut Vec<(Vec<u8>, Vec<u8>)>, a: Vec<u8>, b: Vec<u8>)
    ensures
        crate::args::pair_views(final(list)@) == crate::args::pair_views(old(list)@).push(
            (a@, b@),
        ),
{
    let ghost before = crate::args::pair_views(list@);
    let ghost pair = (a@, b@);
    list.push((a, b));
    assert(crate::args::pair_views(list@) =~= before.push(pair));
}

/// Acts on an option that takes a group of arguments.
fn store_group(args: Args, slot: TupleSlot, v: &Vec<Vec<u8>>) -> (r: Args)
    requires
        v.len() == crate::options::group_size(slot),
    ensures
        r@ == grouped(args@, slot, bytes::views(v@)),
{
    proof {
        reveal(grouped);
    }
    let mut a: Args = args;
    let ghost before = a@;
    let ghost vv = bytes::views(v@);
    match slot {
        TupleSlot::Segaddr => {
            let seg: Vec<u8> = copied(v, 0);
            let addr: u64 = to_hex(v[1].as_slice());
            a.segaddrs.push((seg, addr));
            assert(crate::args::addr_views(a.segaddrs@) =~= before.segaddrs.push(
                (vv[0], hex_value(vv[1])),
            ));
            assert(a@ =~= grouped(before, slot, vv));
        },
        TupleSlot::Segprot => {
            let seg: Vec<u8> = copied(v, 0);
            let max: u8 = to_prot(v[1].as_slice());
            let init: u8 = to_prot(v[2].as_slice());
            a.segprots.push((seg, max, init));
            assert(crate::args::prot_views(a.segprots@) =~= before.segprots.push(
                (vv[0], prot_value(vv[1]), prot_value(vv[2])),
            ));
            assert(a@ =~= grouped(before, slot, vv));
        },
        TupleSlot::SegmentOrder => {
            a.segment_order = split_order(v[0].as_slice());
            assert(a@ =~= grouped(before, slot, vv));
        },
        TupleSlot::RenameSection => {
            a.rename_sections.push((copied(v, 0), copied(v, 1), copied(v, 2), copied(v, 3)));
            assert(crate::args::quad_views(a.rename_sections@) =~= before.rename_sections.push(
                (vv[0], vv[1], vv[2], vv[3]),
            ));
            assert(a@ =~= grouped(before, slot, vv));
        },
        TupleSlot::RenameSegment => {
            push_pair(&mut a.rename_segments, copied(v, 0), copied(v, 1));
            assert(a@ =~= grouped(before, slot, vv));
        },
        TupleSlot::Sectcreate => {
            a.sectcreate.push((copied(v, 0), copied(v, 1), copied(v, 2)));
            assert(crate::args::triple_views(a.sectcreate@) =~= before.sectcreate.push(
                (vv[0], vv[1], vv[2]),
            ));
            assert(a@ =~= grouped(before, slot, vv));
        },
        TupleSlot::AddEmptySection => {
            push_pair(&mut a.add_empty_section, copied(v, 0), copied(v, 1));
            assert(a@ =~= grouped(before, slot, vv));
        },
        TupleSlot::Sectalign => {
            let align: u8 = to_align(v[2].as_slice());
            a.sectalign.push((copied(v, 0), copied(v, 1), align));
            assert(crate::args::align_views(a.sectalign@) =~= before.sectalign.push(
                (vv[0], vv[1], align_value(vv[2])),
            ));
            assert(a@ =~= grouped(before, slot, vv));
        },
        TupleSlot::Alias => {
            push_pair(&mut a.aliases, copied(v, 0), copied(v, 1));
            assert(a@ =~= grouped(before, slot, vv));
        },
    }
    a
}

/// True if a name is a pattern.
pub open spec fn is_pattern(name: Seq<u8>) -> bool {
    exists|i: int|
        0 <= i < name.len() && (#[trigger] name[i] == 42 || name[i] == 63 || name[i] == 91)
}

fn has_wildcard(name: &[u8]) -> (r: bool)
    ensures
        r == is_pattern(name@),
{
    let mut i: usize = 0;
    while i < name.len()
        invariant
            i <= name.len(),
            forall|k: int|
                0 <= k < i ==> #[trigger] name[k] != 42 && name[k] != 63 && name[k] != 91,
        decreases name.len() - i,
    {
        if name[i] == 42 || name[i] == 63 || name[i] == 91 {
            assert(name@[i as int] == name[i as int]);
            return true;
        }
        i += 1;
    }
    false
}

/// The names that are not patterns.
pub open spec fn exact_names(names: Seq<Seq<u8>>) -> Seq<Seq<u8>>
    decreases names.len(),
{
    if names.len() == 0 {
        Seq::empty()
    } else if is_pattern(names.last()) {
        exact_names(names.drop_last())
    } else {
        exact_names(names.drop_last()).push(names.last())
    }
}

/// Lists the names that are not patterns.
fn find_exact(names: &Vec<Vec<u8>>) -> (r: Vec<Vec<u8>>)
    ensures
        bytes::views(r@) == exact_names(bytes::views(names@)),
{
    let ghost nv = bytes::views(names@);
    let mut out: Vec<Vec<u8>> = Vec::new();
    let mut i: usize = 0;
    proof {
        assert(nv.take(0) =~= Seq::<Seq<u8>>::empty());
        assert(bytes::views(out@) =~= Seq::<Seq<u8>>::empty());
    }
    while i < names.len()
        invariant
            i <= names.len(),
            nv == bytes::views(names@),
            bytes::views(out@) == exact_names(nv.take(i as int)),
        decreases names.len() - i,
    {
        assert(nv.take(i + 1).drop_last() =~= nv.take(i as int));
        assert(nv[i as int] == names[i as int]@);
        if !has_wildcard(names[i].as_slice()) {
            push_name(&mut out, bytes::to_vec(names[i].as_slice()));
        }
        i += 1;
    }
    assert(nv.take(i as int) =~= nv);
    out
}

/// The arguments after an option that names a file with these contents.
#[verifier::opaque]
pub open spec fn from_file(a: ArgsView, slot: FileSlot, arg: Seq<u8>, c: Seq<u8>) -> ArgsView {
    let names = text::list_entries(c);
    match slot {
        FileSlot::Filelist => ArgsView { inputs: a.inputs + filelist_inputs(arg, c), ..a },
        FileSlot::Exported => ArgsView {
            exported_symbols: Some(started(a.exported_symbols) + names),
            ..a
        },
        FileSlot::Unexported => ArgsView { unexported_symbols: a.unexported_symbols + names, ..a },
        FileSlot::Reexported => ArgsView {
            reexported_symbols: a.reexported_symbols + names,
            reexported_names: a.reexported_names + exact_names(names),
            forced_undefined: a.forced_undefined + exact_names(names),
            ..a
        },
        FileSlot::LocalStrip => ArgsView { local_strip_list: a.local_strip_list + names, ..a },
        FileSlot::LocalKeep => ArgsView {
            local_keep_list: Some(started(a.local_keep_list) + names),
            ..a
        },
        FileSlot::AliasList => ArgsView {
            aliases: match aliases_of(names, 0, a.aliases) {
                Some(v) => v,
                None => a.aliases,
            },
            ..a
        },
    }
}

/// Acts on an option that names a file.
fn store_from_file(args: Args, slot: FileSlot, arg: &[u8], c: &[u8]) -> (r: Args)
    requires
        slot == FileSlot::AliasList ==> aliases_of(text::list_entries(c@), 0, Seq::empty())
            is Some,
    ensures
        r@ == from_file(args@, slot, arg@, c@),
{
    proof {
        reveal(from_file);
    }
    let mut a: Args = args;
    let ghost before = a@;
    match slot {
        FileSlot::Filelist => {
            read_filelist(arg, c, &mut a.inputs);
            assert(a@ =~= from_file(before, slot, arg@, c@));
        },
        FileSlot::Exported => {
            let names: Vec<Vec<u8>> = text::symbol_list(c);
            let mut list: Vec<Vec<u8>> = start_list(a.exported_symbols);
            push_names(&mut list, &names);
            a.exported_symbols = Some(list);
            assert(a@ =~= from_file(before, slot, arg@, c@));
        },
        FileSlot::Unexported => {
            let names: Vec<Vec<u8>> = text::symbol_list(c);
            push_names(&mut a.unexported_symbols, &names);
            assert(a@ =~= from_file(before, slot, arg@, c@));
        },
        FileSlot::Reexported => {
            let names: Vec<Vec<u8>> = text::symbol_list(c);
            let exact: Vec<Vec<u8>> = find_exact(&names);
            push_names(&mut a.reexported_symbols, &names);
            push_names(&mut a.reexported_names, &exact);
            push_names(&mut a.forced_undefined, &exact);
            assert(a@ =~= from_file(before, slot, arg@, c@));
        },
        FileSlot::LocalStrip => {
            let names: Vec<Vec<u8>> = text::symbol_list(c);
            push_names(&mut a.local_strip_list, &names);
            assert(a@ =~= from_file(before, slot, arg@, c@));
        },
        FileSlot::LocalKeep => {
            let names: Vec<Vec<u8>> = text::symbol_list(c);
            let mut list: Vec<Vec<u8>> = start_list(a.local_keep_list);
            push_names(&mut list, &names);
            a.local_keep_list = Some(list);
            assert(a@ =~= from_file(before, slot, arg@, c@));
        },
        FileSlot::AliasList => {
            let old_aliases: Vec<(Vec<u8>, Vec<u8>)> = a.aliases;
            proof {
                lemma_aliases_start(
                    text::list_entries(c@),
                    0,
                    Seq::empty(),
                    crate::args::pair_views(old_aliases@),
                );
            }
            a.aliases = match read_aliases(c, old_aliases) {
                Some(v) => v,
                None => Vec::new(),
            };
            assert(a@ =~= from_file(before, slot, arg@, c@));
        },
    }
    a
}

/// The contents of the file that an option names.
pub open spec fn named_file(
    files: Seq<(Seq<u8>, Option<Seq<u8>>)>,
    slot: FileSlot,
    arg: Seq<u8>,
) -> Option<Seq<u8>> {
    if slot == FileSlot::Filelist {
        file_from(files, filelist_path(arg), 0)
    } else {
        file_from(files, arg, 0)
    }
}

/// The arguments after an option with checked arguments.
pub open spec fn stored(
    a: ArgsView,
    slot: Slot,
    v: Seq<Seq<u8>>,
    files: Seq<(Seq<u8>, Option<Seq<u8>>)>,
) -> ArgsView {
    match slot {
        Slot::One(s) => set_one(a, s, v[0]),
        Slot::Push(s) => push_one(a, s, v[0]),
        Slot::Input(s) => ArgsView { inputs: a.inputs.push(input_of(s, v[0])), ..a },
        Slot::Value(s) => ArgsView { sw: valued(a.sw, s, v), ..a },
        Slot::Tuple(s) => grouped(a, s, v),
        Slot::FromFile(s) => match named_file(files, s, v[0]) {
            Some(c) => from_file(a, s, v[0], c),
            None => a,
        },
    }
}

fn push_input(args: Args, input: InputArg) -> (r: Args)
    ensures
        r@ == (ArgsView { inputs: args@.inputs.push(input@), ..args@ }),
{
    let mut a: Args = args;
    let ghost before = a@;
    let ghost iv = input@;
    a.inputs.push(input);
    assert(crate::args::input_views(a.inputs@) =~= before.inputs.push(iv));
    assert(a@ =~= (ArgsView { inputs: before.inputs.push(iv), ..before }));
    a
}

/// Acts on an option with checked arguments.
fn store(args: Args, slot: Slot, v: &Vec<Vec<u8>>, files: &Vec<FileText>) -> (r: Args)
    requires
        v.len() == crate::options::kinds_of(slot).len(),
        slot == Slot::FromFile(FileSlot::AliasList) ==> problem_of(
            ArgKind::AliasFile,
            bytes::views(v@)[0],
            file_views(files@),
        ) is None,
    ensures
        r@ == stored(args@, slot, bytes::views(v@), file_views(files@)),
{
    let ghost vv = bytes::views(v@);
    proof {
        crate::options::lemma_kinds(slot);
    }
    match slot {
        Slot::One(s) => store_one(args, s, copied(v, 0)),
        Slot::Push(s) => store_push(args, s, copied(v, 0)),
        Slot::Input(s) => push_input(args, make_input(s, copied(v, 0))),
        Slot::Value(s) => {
            let mut a: Args = args;
            let ghost before = a@;
            a.sw = apply_value(a.sw, s, v);
            assert(a@ =~= (ArgsView { sw: valued(before.sw, s, vv), ..before }));
            a
        },
        Slot::Tuple(s) => store_group(args, s, v),
        Slot::FromFile(s) => {
            assert(vv[0] == v[0]@);
            let arg = v[0].as_slice();
            let end: usize = if s == FileSlot::Filelist {
                match first_byte(44, arg) {
                    Some(i) => i,
                    None => arg.len(),
                }
            } else {
                arg.len()
            };
            let path = vstd::slice::slice_subrange(arg, 0, end);
            proof {
                if s == FileSlot::Filelist {
                    assert(path@ =~= filelist_path(arg@));
                } else {
                    assert(path@ =~= arg@);
                }
            }
            proof {
                if s == FileSlot::AliasList {
                    reveal(problem_of);
                }
            }
            match find_file(files, path) {
                Some(c) => store_from_file(args, s, arg, c.as_slice()),
                None => args,
            }
        },
    }
}

/// The input or path that a token which is no option by itself gives: a
/// prefix form or a file. `None` for an unknown option.
#[verifier::opaque]
pub open spec fn loose(a: ArgsView, tok: Seq<u8>) -> Option<ArgsView> {
    if bytes::has_prefix(tok, "-reexport-l".spec_bytes()) {
        Some(
            ArgsView {
                inputs: a.inputs.push(
                    InputView::ReexportLib(tok.skip("-reexport-l".spec_bytes().len() as int)),
                ),
                ..a
            },
        )
    } else if bytes::has_prefix(tok, "-hidden-l".spec_bytes()) {
        Some(
            ArgsView {
                inputs: a.inputs.push(
                    InputView::HiddenLib(tok.skip("-hidden-l".spec_bytes().len() as int)),
                ),
                ..a
            },
        )
    } else if bytes::has_prefix(tok, "-needed-l".spec_bytes()) {
        Some(
            ArgsView {
                inputs: a.inputs.push(
                    InputView::NeededLib(tok.skip("-needed-l".spec_bytes().len() as int)),
                ),
                ..a
            },
        )
    } else if bytes::has_prefix(tok, "-weak-l".spec_bytes()) {
        Some(
            ArgsView {
                inputs: a.inputs.push(
                    InputView::Lib(tok.skip("-weak-l".spec_bytes().len() as int), true),
                ),
                ..a
            },
        )
    } else if bytes::has_prefix(tok, "-l".spec_bytes()) {
        Some(
            ArgsView {
                inputs: a.inputs.push(
                    InputView::Lib(tok.skip("-l".spec_bytes().len() as int), false),
                ),
                ..a
            },
        )
    } else if bytes::has_prefix(tok, "-L".spec_bytes()) {
        Some(
            ArgsView {
                library_paths: a.library_paths.push(
                    tok.skip("-L".spec_bytes().len() as int),
                ),
                ..a
            },
        )
    } else if bytes::has_prefix(tok, "-F".spec_bytes()) {
        Some(
            ArgsView {
                framework_paths: a.framework_paths.push(
                    tok.skip("-F".spec_bytes().len() as int),
                ),
                ..a
            },
        )
    } else if bytes::has_prefix(tok, "-".spec_bytes()) {
        None
    } else {
        Some(ArgsView { inputs: a.inputs.push(InputView::File(tok)), ..a })
    }
}

/// The part of a token behind a prefix, if it has the prefix.
fn behind(tok: &[u8], prefix: &str) -> (r: Option<Vec<u8>>)
    ensures
        match r {
            Some(v) => bytes::has_prefix(tok@, prefix.spec_bytes()) && v@ == tok@.skip(
                prefix.spec_bytes().len() as int,
            ),
            None => !bytes::has_prefix(tok@, prefix.spec_bytes()),
        },
{
    let p = prefix.as_bytes();
    if bytes::starts_with(tok, p) {
        let v: Vec<u8> = bytes::copy_range(tok, p.len(), tok.len());
        assert(v@ =~= tok@.skip(p.len() as int));
        Some(v)
    } else {
        None
    }
}

/// Acts on a token that is no option by itself.
fn store_loose(args: Args, tok: &[u8]) -> (r: Result<Args, Args>)
    ensures
        match r {
            Ok(a) => loose(args@, tok@) == Some(a@),
            Err(_a) => loose(args@, tok@) is None,
        },
{
    proof {
        reveal(loose);
        reveal(push_one);
    }
    match behind(tok, "-reexport-l") {
        Some(v) => return Ok(push_input(args, InputArg::ReexportLib(v))),
        None => {},
    }
    match behind(tok, "-hidden-l") {
        Some(v) => return Ok(push_input(args, InputArg::HiddenLib(v))),
        None => {},
    }
    match behind(tok, "-needed-l") {
        Some(v) => return Ok(push_input(args, InputArg::NeededLib(v))),
        None => {},
    }
    match behind(tok, "-weak-l") {
        Some(v) => return Ok(push_input(args, InputArg::Lib(v, true))),
        None => {},
    }
    match behind(tok, "-l") {
        Some(v) => return Ok(push_input(args, InputArg::Lib(v, false))),
        None => {},
    }
    match behind(tok, "-L") {
        Some(v) => return Ok(store_push(args, PushSlot::LibraryPath, v)),
        None => {},
    }
    match behind(tok, "-F") {
        Some(v) => return Ok(store_push(args, PushSlot::FrameworkPath, v)),
        None => {},
    }
    match behind(tok, "-") {
        Some(_v) => Err(args),
        None => Ok(push_input(args, InputArg::File(bytes::to_vec(tok)))),
    }
}

/// What a command line asks for.
#[derive(Debug)]
pub enum Parsed {
    /// Link with these arguments.
    Link(Args),
    /// Print the usage.
    Help,
    /// Print the version details.
    VersionDetails,
    /// Print the version and nothing else.
    VersionOnly,
}

/// What a command line asks for, as mathematical values.
#[verifier::ext_equal]
pub enum ParsedView {
    Link(ArgsView),
    Help,
    VersionDetails,
    VersionOnly,
}

impl View for Parsed {
    type V = ParsedView;

    open spec fn view(&self) -> ParsedView {
        match self {
            Parsed::Link(a) => ParsedView::Link(a@),
            Parsed::Help => ParsedView::Help,
            Parsed::VersionDetails => ParsedView::VersionDetails,
            Parsed::VersionOnly => ParsedView::VersionOnly,
        }
    }
}

/// What the collected arguments ask for, once all have been read.
#[verifier::opaque]
pub open spec fn finished(a: ArgsView, n: int) -> Result<ParsedView, ArgError> {
    let s = a.sw;
    if s.version_shown && a.inputs.len() == 0 {
        Ok(ParsedView::VersionOnly)
    } else if s.output_type != MH_EXECUTE && s.explicit_pagezero {
        Err(ArgError { problem: Problem::PagezeroNotExecutable, at: n as usize })
    } else if s.relocatable && a.sdk_imports is Some {
        Err(ArgError { problem: Problem::SdkImportsRelocatable, at: n as usize })
    } else if s.no_exported_symbols && (a.exported_symbols is Some || a.unexported_symbols.len()
        > 0) {
        Err(ArgError { problem: Problem::ExportsConflict, at: n as usize })
    } else if s.output_type != MH_EXECUTE {
        Ok(ParsedView::Link(ArgsView { sw: Switches { pagezero_size: 0, ..s }, ..a }))
    } else {
        Ok(ParsedView::Link(a))
    }
}

/// Checks the collected arguments against each other.
fn finish(args: Args, n: usize) -> (r: Result<Parsed, ArgError>)
    ensures
        match r {
            Ok(p) => finished(args@, n as int) == Ok::<ParsedView, ArgError>(p@),
            Err(e) => finished(args@, n as int) == Err::<ParsedView, ArgError>(e),
        },
{
    proof {
        reveal(finished);
    }
    let mut a: Args = args;
    let ghost before = a@;
    if a.sw.version_shown && a.inputs.len() == 0 {
        return Ok(Parsed::VersionOnly);
    }
    if a.sw.output_type != MH_EXECUTE && a.sw.explicit_pagezero {
        return Err(ArgError { problem: Problem::PagezeroNotExecutable, at: n });
    }
    if a.sw.relocatable && a.sdk_imports.is_some() {
        return Err(ArgError { problem: Problem::SdkImportsRelocatable, at: n });
    }
    if a.sw.no_exported_symbols && (a.exported_symbols.is_some() || a.unexported_symbols.len()
        > 0) {
        return Err(ArgError { problem: Problem::ExportsConflict, at: n });
    }
    if a.sw.output_type != MH_EXECUTE {
        a.sw = Switches { pagezero_size: 0, ..a.sw };
        assert(a@ =~= (ArgsView {
            sw: Switches { pagezero_size: 0, ..before.sw },
            ..before
        }));
    }
    Ok(Parsed::Link(a))
}

/// What a command line asks for, from the `i`th argument on.
pub open spec fn parsed_from(
    cmd: Seq<Seq<u8>>,
    files: Seq<(Seq<u8>, Option<Seq<u8>>)>,
    i: int,
    a: ArgsView,
) -> Result<ParsedView, ArgError>
    decreases cmd.len() - i,
{
    if i < 0 || i >= cmd.len() {
        finished(a, cmd.len() as int)
    } else if cmd[i] == "-help".spec_bytes() {
        Ok(ParsedView::Help)
    } else if cmd[i] == "-version_details".spec_bytes() {
        Ok(ParsedView::VersionDetails)
    } else {
        match crate::options::switch_named(cmd[i]) {
            Some(w) => parsed_from(
                cmd,
                files,
                i + 1,
                ArgsView { sw: crate::options::switched(a.sw, w), ..a },
            ),
            None => match crate::options::slot_of(cmd[i]) {
                Some(slot) => {
                    let kinds = crate::options::kinds_of(slot);
                    match args_problem(cmd, files, i, kinds, 0) {
                        Some(e) => Err(e),
                        None => if i + 1 + kinds.len() > cmd.len() {
                            Err(ArgError { problem: Problem::Missing, at: i as usize })
                        } else {
                            parsed_from(
                                cmd,
                                files,
                                i + 1 + kinds.len(),
                                stored(
                                    a,
                                    slot,
                                    cmd.subrange(i + 1, i + 1 + kinds.len()),
                                    files,
                                ),
                            )
                        },
                    }
                },
                None => match loose(a, cmd[i]) {
                    Some(next) => parsed_from(cmd, files, i + 1, next),
                    None => Err(ArgError { problem: Problem::Unknown, at: i as usize }),
                },
            },
        }
    }
}

fn take_args(cmd: &Vec<Vec<u8>>, i: usize, n: usize) -> (r: Vec<Vec<u8>>)
    requires
        i + n < cmd.len(),
    ensures
        r.len() == n,
        bytes::views(r@) == bytes::views(cmd@).subrange(i + 1, i + 1 + n),
{
    let mut out: Vec<Vec<u8>> = Vec::new();
    let mut k: usize = 0;
    while k < n
        invariant
            k <= n,
            i + n < cmd.len(),
            out.len() == k,
            forall|j: int| 0 <= j < k ==> (#[trigger] out[j])@ == cmd[i + 1 + j]@,
        decreases n - k,
    {
        out.push(bytes::to_vec(cmd[i + 1 + k].as_slice()));
        k += 1;
    }
    assert(bytes::views(out@) =~= bytes::views(cmd@).subrange(i + 1, i + 1 + n));
    out
}

/// A checked alias file has no problem.
proof fn lemma_alias_checked(
    cmd: Seq<Seq<u8>>,
    files: Seq<(Seq<u8>, Option<Seq<u8>>)>,
    i: int,
)
    requires
        args_problem(
            cmd,
            files,
            i,
            crate::options::kinds_of(Slot::FromFile(FileSlot::AliasList)),
            0,
        ) is None,
        i + 1 < cmd.len(),
    ensures
        problem_of(ArgKind::AliasFile, cmd[i + 1], files) is None,
{
    crate::options::lemma_kinds(Slot::FromFile(FileSlot::AliasList));
}

/// Parses all options. The command line starts with the program's name;
/// `files` holds the files that it names.
///
/// Options are matched as bytes and their arguments keep the bytes they were
/// given in. Arguments that are text by nature must be UTF-8.
pub fn parse_args(cmd: &Vec<Vec<u8>>, files: &Vec<FileText>) -> (r: Result<Parsed, ArgError>)
    ensures
        match r {
            Ok(p) => parsed_from(
                bytes::views(cmd@),
                file_views(files@),
                1,
                crate::args::default_args(),
            ) == Ok::<ParsedView, ArgError>(p@),
            Err(e) => parsed_from(
                bytes::views(cmd@),
                file_views(files@),
                1,
                crate::args::default_args(),
            ) == Err::<ParsedView, ArgError>(e),
        },
{
    let ghost cv = bytes::views(cmd@);
    let ghost fv = file_views(files@);
    let mut args: Args = Args::default();
    let mut i: usize = 1;
    let ghost goal = parsed_from(cv, fv, 1, crate::args::default_args());
    while i < cmd.len()
        invariant
            cv == bytes::views(cmd@),
            fv == file_views(files@),
            goal == parsed_from(cv, fv, 1, crate::args::default_args()),
            1 <= i,
            i <= cmd.len() || i == 1,
            goal == parsed_from(cv, fv, i as int, args@),
        decreases cmd.len() - i,
    {
        assert(cv[i as int] == cmd[i as int]@);
        let tok = cmd[i].as_slice();
        let ghost before = args@;
        if bytes::same(tok, "-help".as_bytes()) {
            return Ok(Parsed::Help);
        }
        if bytes::same(tok, "-version_details".as_bytes()) {
            return Ok(Parsed::VersionDetails);
        }
        match find_switch(tok) {
            Some(w) => {
                args.sw = apply_switch(args.sw, w);
                assert(args@ =~= (ArgsView {
                    sw: crate::options::switched(before.sw, w),
                    ..before
                }));
                i += 1;
            },
            None => match find_slot(tok) {
                Some(slot) => {
                    let kinds: Vec<ArgKind> = list_kinds(slot);
                    proof {
                        crate::options::lemma_kinds(slot);
                    }
                    match check_args(cmd, files, i, &kinds) {
                        Some(e) => return Err(e),
                        None => {},
                    }
                    let v: Vec<Vec<u8>> = take_args(cmd, i, kinds.len());
                    proof {
                        if slot == Slot::FromFile(FileSlot::AliasList) {
                            lemma_alias_checked(cv, fv, i as int);
                            assert(bytes::views(v@)[0] == cv[i + 1]);
                        }
                    }
                    args = store(args, slot, &v, files);
                    i += 1 + kinds.len();
                },
                None => match store_loose(args, tok) {
                    Ok(next) => {
                        args = next;
                        i += 1;
                    },
                    Err(_a) => {
                        return Err(ArgError { problem: Problem::Unknown, at: i });
                    },
                },
            },
        }
    }
    finish(args, cmd.len())
}

/// True for the bytes that separate the tokens of a response file.
pub open spec fn space(c: u8) -> bool {
    c == 32 || 9 <= c <= 13
}

/// Tests for a byte that separates tokens.
pub fn is_space(c: u8) -> (r: bool)
    ensures
        r == space(c),
{
    c == 32 || (9 <= c && c <= 13)
}

/// The token of a response file from `i` on, behind the bytes in `acc`,
/// inside the quotes `quote`, and where it ends. `None` if the file ends
/// inside it.
pub open spec fn token_from(
    data: Seq<u8>,
    i: int,
    quote: Option<u8>,
    acc: Seq<u8>,
) -> Option<(Seq<u8>, int)>
    decreases data.len() - i,
{
    if i < 0 || i >= data.len() {
        if quote is Some {
            None
        } else {
            Some((acc, i))
        }
    } else if data[i] == 92 {
        if i + 1 >= data.len() {
            None
        } else {
            token_from(data, i + 2, quote, acc.push(data[i + 1]))
        }
    } else if quote is Some {
        if data[i] == quote->0 {
            token_from(data, i + 1, None, acc)
        } else {
            token_from(data, i + 1, quote, acc.push(data[i]))
        }
    } else if data[i] == 39 || data[i] == 34 {
        token_from(data, i + 1, Some(data[i]), acc)
    } else if space(data[i]) {
        Some((acc, i))
    } else {
        token_from(data, i + 1, quote, acc.push(data[i]))
    }
}

/// The tokens of a response file from `i` on, behind those in `acc`. `None`
/// if the file ends inside a token.
pub open spec fn tokens_from(data: Seq<u8>, i: int, acc: Seq<Seq<u8>>) -> Option<Seq<Seq<u8>>>
    decreases data.len() - i,
{
    if i < 0 || i >= data.len() {
        Some(acc)
    } else if space(data[i]) {
        tokens_from(data, i + 1, acc)
    } else {
        match token_from(data, i, None, Seq::empty()) {
            None => None,
            Some((tok, next)) => if next <= i || next > data.len() {
                Some(acc)
            } else {
                tokens_from(data, next, acc.push(tok))
            },
        }
    }
}

/// Reads one token of a response file.
fn read_token(data: &[u8], start: usize) -> (r: Option<(Vec<u8>, usize)>)
    requires
        start < data.len(),
        !space(data[start as int]),
    ensures
        match r {
            Some((tok, next)) => token_from(data@, start as int, None, Seq::empty()) == Some(
                (tok@, next as int),
            ) && start < next <= data.len(),
            None => token_from(data@, start as int, None, Seq::empty()) is None,
        },
{
    let mut tok: Vec<u8> = Vec::new();
    let mut quote: Option<u8> = None;
    let mut i: usize = start;
    assert(tok@ =~= Seq::<u8>::empty());
    while i < data.len()
        invariant
            start <= i <= data.len(),
            start < data.len(),
            !space(data[start as int]),
            i == start ==> quote is None,
            token_from(data@, start as int, None, Seq::empty()) == token_from(
                data@,
                i as int,
                quote,
                tok@,
            ),
        decreases data.len() - i,
    {
        let c: u8 = data[i];
        if c == 92 {
            if data.len() - i <= 1 {
                return None;
            }
            tok.push(data[i + 1]);
            i += 2;
        } else {
            match quote {
                Some(q) => {
                    if c == q {
                        quote = None;
                    } else {
                        tok.push(c);
                    }
                    i += 1;
                },
                None => {
                    if c == 39 || c == 34 {
                        quote = Some(c);
                        i += 1;
                    } else if is_space(c) {
                        return Some((tok, i));
                    } else {
                        tok.push(c);
                        i += 1;
                    }
                },
            }
        }
    }
    if quote.is_some() {
        return None;
    }
    Some((tok, i))
}

/// Splits a response file into tokens: white space separates them, quotes
/// and backslashes protect it.
pub fn tokenize_response(data: &[u8]) -> (r: Option<Vec<Vec<u8>>>)
    ensures
        match r {
            Some(v) => tokens_from(data@, 0, Seq::empty()) == Some(bytes::views(v@)),
            None => tokens_from(data@, 0, Seq::empty()) is None,
        },
{
    let mut out: Vec<Vec<u8>> = Vec::new();
    let mut i: usize = 0;
    assert(bytes::views(out@) =~= Seq::<Seq<u8>>::empty());
    while i < data.len()
        invariant
            i <= data.len(),
            tokens_from(data@, 0, Seq::empty()) == tokens_from(
                data@,
                i as int,
                bytes::views(out@),
            ),
        decreases data.len() - i,
    {
        if is_space(data[i]) {
            i += 1;
        } else {
            match read_token(data, i) {
                None => return None,
                Some((tok, next)) => {
                    push_name(&mut out, tok);
                    i = next;
                },
            }
        }
    }
    Some(out)
}

/// Why response files cannot be expanded.
#[derive(Clone, Copy, Debug, PartialEq, Eq, Structural)]
pub enum ResponseError {
    /// A file ends inside a token.
    PrematureEnd,
    /// Files name each other too deeply.
    TooDeep,
}

/// A response file's name in an argument.
pub open spec fn response_path(arg: Seq<u8>) -> Option<Seq<u8>> {
    if arg.len() > 0 && arg[0] == 64 {
        Some(arg.skip(1))
    } else {
        None
    }
}

/// The arguments with response files replaced by their tokens: the
/// arguments from `i` on, behind those in `acc`, at a nesting depth. An
/// argument is replaced only when the named file can be read.
pub open spec fn expanded(
    args: Seq<Seq<u8>>,
    files: Seq<(Seq<u8>, Option<Seq<u8>>)>,
    depth: int,
    i: int,
    acc: Seq<Seq<u8>>,
) -> Result<Seq<Seq<u8>>, ResponseError>
    decreases 12 - depth, args.len() - i,
{
    if i < 0 || i >= args.len() {
        Ok(acc)
    } else {
        let file = match response_path(args[i]) {
            Some(p) => file_from(files, p, 0),
            None => None,
        };
        match file {
            None => expanded(args, files, depth, i + 1, acc.push(args[i])),
            Some(c) => if depth >= 10 {
                Err(ResponseError::TooDeep)
            } else {
                match tokens_from(c, 0, Seq::empty()) {
                    None => Err(ResponseError::PrematureEnd),
                    Some(toks) => match expanded(toks, files, depth + 1, 0, acc) {
                        Ok(next) => expanded(args, files, depth, i + 1, next),
                        Err(e) => Err(e),
                    },
                }
            },
        }
    }
}

fn expand_into(
    args: &Vec<Vec<u8>>,
    files: &Vec<FileText>,
    depth: usize,
    out: &mut Vec<Vec<u8>>,
) -> (r: Result<(), ResponseError>)
    requires
        depth <= 10,
    ensures
        match r {
            Ok(()) => expanded(
                bytes::views(args@),
                file_views(files@),
                depth as int,
                0,
                bytes::views(old(out)@),
            ) == Ok::<Seq<Seq<u8>>, ResponseError>(bytes::views(final(out)@)),
            Err(e) => expanded(
                bytes::views(args@),
                file_views(files@),
                depth as int,
                0,
                bytes::views(old(out)@),
            ) == Err::<Seq<Seq<u8>>, ResponseError>(e),
        },
    decreases 10 - depth,
{
    let ghost av = bytes::views(args@);
    let ghost fv = file_views(files@);
    let ghost start = bytes::views(out@);
    let mut i: usize = 0;
    while i < args.len()
        invariant
            i <= args.len(),
            depth <= 10,
            av == bytes::views(args@),
            fv == file_views(files@),
            start == bytes::views(old(out)@),
            expanded(av, fv, depth as int, 0, start) == expanded(
                av,
                fv,
                depth as int,
                i as int,
                bytes::views(out@),
            ),
        decreases args.len() - i,
    {
        assert(av[i as int] == args[i as int]@);
        let arg = args[i].as_slice();
        let mut file: Option<&Vec<u8>> = None;
        if arg.len() > 0 && arg[0] == 64 {
            let path = vstd::slice::slice_subrange(arg, 1, arg.len());
            assert(path@ =~= arg@.skip(1));
            file = find_file(files, path);
        }
        match file {
            None => {
                push_name(out, bytes::to_vec(arg));
            },
            Some(c) => {
                if depth >= 10 {
                    return Err(ResponseError::TooDeep);
                }
                let toks: Vec<Vec<u8>> = match tokenize_response(c.as_slice()) {
                    Some(t) => t,
                    None => return Err(ResponseError::PrematureEnd),
                };
                match expand_into(&toks, files, depth + 1, out) {
                    Ok(()) => {},
                    Err(e) => return Err(e),
                }
            },
        }
        i += 1;
    }
    Ok(())
}

/// Replaces "@path" arguments with the tokens of the named files.
pub fn expand_response_files(argv: &Vec<Vec<u8>>, files: &Vec<FileText>) -> (r: Result<
    Vec<Vec<u8>>,
    ResponseError,
>)
    ensures
        match r {
            Ok(v) => expanded(bytes::views(argv@), file_views(files@), 0, 0, Seq::empty()) == Ok::<
                Seq<Seq<u8>>,
                ResponseError,
            >(bytes::views(v@)),
            Err(e) => expanded(bytes::views(argv@), file_views(files@), 0, 0, Seq::empty())
                == Err::<Seq<Seq<u8>>, ResponseError>(e),
        },
{
    let mut out: Vec<Vec<u8>> = Vec::new();
    assert(bytes::views(out@) =~= Seq::<Seq<u8>>::empty());
    match expand_into(argv, files, 0, &mut out) {
        Ok(()) => Ok(out),
        Err(e) => Err(e),
    }
}

/// The file that an argument of some kind names.
pub open spec fn file_named(kind: ArgKind, arg: Seq<u8>) -> Option<Seq<u8>> {
    match kind {
        ArgKind::ListFile | ArgKind::AliasFile => Some(arg),
        ArgKind::FileList => Some(filelist_path(arg)),
        _ => None,
    }
}

/// The files that the first `k` arguments of the option at `i` name.
pub open spec fn files_of_option(cmd: Seq<Seq<u8>>, i: int, kinds: Seq<ArgKind>, k: int) -> Seq<
    Seq<u8>,
>
    decreases k,
{
    if k <= 0 {
        Seq::empty()
    } else {
        let before = files_of_option(cmd, i, kinds, k - 1);
        if i + k >= cmd.len() {
            before
        } else {
            match file_named(kinds[k - 1], cmd[i + k]) {
                Some(path) => before.push(path),
                None => before,
            }
        }
    }
}

/// The files that options among the first `n` words name.
pub open spec fn files_named(cmd: Seq<Seq<u8>>, n: int) -> Seq<Seq<u8>>
    decreases n,
{
    if n <= 0 {
        Seq::empty()
    } else {
        let before = files_named(cmd, n - 1);
        match crate::options::slot_of(cmd[n - 1]) {
            None => before,
            Some(slot) => {
                let kinds = crate::options::kinds_of(slot);
                before + files_of_option(cmd, n - 1, kinds, kinds.len() as int)
            },
        }
    }
}

fn push_file_named(kind: ArgKind, arg: &[u8], out: &mut Vec<Vec<u8>>)
    ensures
        bytes::views(final(out)@) == match file_named(kind, arg@) {
            Some(path) => bytes::views(old(out)@).push(path),
            None => bytes::views(old(out)@),
        },
{
    match kind {
        ArgKind::ListFile | ArgKind::AliasFile => push_name(out, bytes::to_vec(arg)),
        ArgKind::FileList => {
            let end: usize = match first_byte(44, arg) {
                Some(i) => i,
                None => arg.len(),
            };
            let path: Vec<u8> = bytes::copy_range(arg, 0, end);
            assert(path@ =~= filelist_path(arg@));
            push_name(out, path);
        },
        _ => {},
    }
}

/// Lists the files that the options of a command line name, as `parse_args`
/// wants them read.
pub fn list_files_named(cmd: &Vec<Vec<u8>>) -> (r: Vec<Vec<u8>>)
    ensures
        bytes::views(r@) == files_named(bytes::views(cmd@), cmd.len() as int),
{
    let ghost words = bytes::views(cmd@);
    let mut r: Vec<Vec<u8>> = Vec::new();
    let mut i: usize = 0;
    assert(bytes::views(r@) =~= Seq::<Seq<u8>>::empty());
    while i < cmd.len()
        invariant
            i <= cmd.len(),
            words == bytes::views(cmd@),
            bytes::views(r@) == files_named(words, i as int),
        decreases cmd.len() - i,
    {
        assert(words[i as int] == cmd[i as int]@);
        match find_slot(cmd[i].as_slice()) {
            None => {},
            Some(slot) => {
                let kinds: Vec<ArgKind> = list_kinds(slot);
                let ghost before = bytes::views(r@);
                let mut k: usize = 0;
                assert(before + Seq::<Seq<u8>>::empty() =~= before);
                while k < kinds.len()
                    invariant
                        i < cmd.len(),
                        k <= kinds.len(),
                        words == bytes::views(cmd@),
                        bytes::views(r@) == before + files_of_option(
                            words,
                            i as int,
                            kinds@,
                            k as int,
                        ),
                    decreases kinds.len() - k,
                {
                    let ghost part = files_of_option(words, i as int, kinds@, k as int);
                    if k < cmd.len() - i - 1 {
                        let at: usize = i + k + 1;
                        assert(words[at as int] == cmd[at as int]@);
                        push_file_named(kinds[k], cmd[at].as_slice(), &mut r);
                        proof {
                            let kind = kinds@[k as int];
                            if file_named(kind, words[at as int]) is Some {
                                let path = file_named(kind, words[at as int])->0;
                                assert((before + part).push(path) =~= before + part.push(path));
                            }
                        }
                    }
                    k += 1;
                }
            },
        }
        i += 1;
    }
    r
}

/// An image other than a program has no page zero: whatever the command line
/// says, it is accepted only without -pagezero_size, and the size is then 0.
pub proof fn lemma_only_programs_have_page_zero(
    cmd: Seq<Seq<u8>>,
    files: Seq<(Seq<u8>, Option<Seq<u8>>)>,
    i: int,
    a: ArgsView,
    args: ArgsView,
)
    requires
        parsed_from(cmd, files, i, a) == Ok::<ParsedView, ArgError>(ParsedView::Link(args)),
        args.sw.output_type != MH_EXECUTE,
    ensures
        args.sw.pagezero_size == 0,
        !args.sw.explicit_pagezero,
    decreases cmd.len() - i,
{
    if i < 0 || i >= cmd.len() {
        reveal(finished);
    } else {
        match crate::options::switch_named(cmd[i]) {
            Some(w) => {
                let next = ArgsView { sw: crate::options::switched(a.sw, w), ..a };
                lemma_only_programs_have_page_zero(cmd, files, i + 1, next, args);
            },
            None => match crate::options::slot_of(cmd[i]) {
                Some(slot) => {
                    let n = crate::options::kinds_of(slot).len();
                    let next = stored(a, slot, cmd.subrange(i + 1, i + 1 + n), files);
                    lemma_only_programs_have_page_zero(cmd, files, i + 1 + n, next, args);
                },
                None => {
                    let next = loose(a, cmd[i])->0;
                    lemma_only_programs_have_page_zero(cmd, files, i + 1, next, args);
                },
            },
        }
    }
}

/// The number of bytes that a program leaves unmapped at address 0, unless
/// the command line says otherwise.
pub const DEFAULT_PAGEZERO: u64 = 0x1_0000_0000;

/// One option with its arguments leaves the size of page zero alone, unless
/// it is -pagezero_size.
proof fn lemma_page_zero_kept(
    a: ArgsView,
    slot: Slot,
    v: Seq<Seq<u8>>,
    files: Seq<(Seq<u8>, Option<Seq<u8>>)>,
)
    ensures
        slot != Slot::Value(ValueSlot::PagezeroSize) ==> {
            let s = stored(a, slot, v, files).sw;
            &&& s.pagezero_size == a.sw.pagezero_size
            &&& s.explicit_pagezero == a.sw.explicit_pagezero
        },
        slot == Slot::Value(ValueSlot::PagezeroSize) ==> stored(
            a,
            slot,
            v,
            files,
        ).sw.explicit_pagezero,
{
    reveal(set_one);
    reveal(push_one);
    reveal(valued);
    reveal(grouped);
    reveal(from_file);
}

proof fn lemma_page_zero_from(
    cmd: Seq<Seq<u8>>,
    files: Seq<(Seq<u8>, Option<Seq<u8>>)>,
    i: int,
    a: ArgsView,
    args: ArgsView,
)
    requires
        parsed_from(cmd, files, i, a) == Ok::<ParsedView, ArgError>(ParsedView::Link(args)),
        args.sw.output_type == MH_EXECUTE,
        a.sw.explicit_pagezero || a.sw.pagezero_size == DEFAULT_PAGEZERO,
    ensures
        args.sw.explicit_pagezero || args.sw.pagezero_size == DEFAULT_PAGEZERO,
        args.sw.explicit_pagezero ==> a.sw.explicit_pagezero || exists|k: int|
            i <= k < cmd.len() && #[trigger] cmd[k] == "-pagezero_size".spec_bytes(),
    decreases cmd.len() - i,
{
    if i < 0 || i >= cmd.len() {
        reveal(finished);
    } else {
        match crate::options::switch_named(cmd[i]) {
            Some(w) => {
                let next = ArgsView { sw: crate::options::switched(a.sw, w), ..a };
                crate::options::lemma_switch_keeps_page_zero(a.sw, w);
                lemma_page_zero_from(cmd, files, i + 1, next, args);
            },
            None => match crate::options::slot_of(cmd[i]) {
                Some(slot) => {
                    let n = crate::options::kinds_of(slot).len();
                    let v = cmd.subrange(i + 1, i + 1 + n);
                    lemma_page_zero_kept(a, slot, v, files);
                    crate::options::lemma_page_zero_option(cmd[i]);
                    lemma_page_zero_from(cmd, files, i + 1 + n, stored(a, slot, v, files), args);
                },
                None => {
                    reveal(loose);
                    let next = loose(a, cmd[i])->0;
                    lemma_page_zero_from(cmd, files, i + 1, next, args);
                },
            },
        }
    }
}

/// A program keeps the default page zero, whatever other options there are
/// and in whatever order, unless -pagezero_size is among them.
pub proof fn lemma_programs_keep_page_zero(
    cmd: Seq<Seq<u8>>,
    files: Seq<(Seq<u8>, Option<Seq<u8>>)>,
    args: ArgsView,
)
    requires
        parsed_from(cmd, files, 1, crate::args::default_args()) == Ok::<ParsedView, ArgError>(
            ParsedView::Link(args),
        ),
        args.sw.output_type == MH_EXECUTE,
        forall|k: int| 1 <= k < cmd.len() ==> #[trigger] cmd[k] != "-pagezero_size".spec_bytes(),
    ensures
        args.sw.pagezero_size == DEFAULT_PAGEZERO,
        !args.sw.explicit_pagezero,
{
    lemma_page_zero_from(cmd, files, 1, crate::args::default_args(), args);
}

} // verus!
