//! Input files: archives, fat files, libraries and names.
use mold_macho::arch::arm64::Arm64;
use mold_macho::archive_file::{read_archive_members, ArchiveError};
use mold_macho::args::{Args, InputArg, TargetName};
use mold_macho::filetype::{
    detect_target, get_fat_slice, get_file_type, get_macho_target, FatError, FileType,
};
use mold_macho::input_files::dylib::{dir_of, join_dir, ReexportWalk};
use mold_macho::input_files::strtab::validate_strtab;
use mold_macho::input_files::{read_uleb_at, try_uleb_at};
use mold_macho::mapfile::{list_inputs, write_dependency_info};
use mold_macho::mapped_file::MappedFile;
use mold_macho::name_set::NameSet;
use mold_macho::passes::order::parse_order_files;
use mold_macho::passes::read_inputs::{
    collect_file, repeated_libraries, request_of, CollectError, Collected, PendingObject, Target,
};
use mold_macho::passes::search::{find_framework, find_library};
use mold_macho::symbol::{hash_key, shard_of, SymbolTable};
use mold_macho::tapi;

fn mapped(name: &str, data: Vec<u8>) -> MappedFile {
    MappedFile { name: name.as_bytes().to_vec(), data, parent: None }
}

fn member(name: &str, size: &str, body: &[u8]) -> Vec<u8> {
    let mut b = format!("{name:<16}{:<12}{:<6}{:<6}{:<8}{size:<10}`\n", 0, 0, 0, 644).into_bytes();
    b.extend_from_slice(body);
    if b.len() % 2 == 1 {
        b.push(b'\n');
    }
    b
}

fn archive(members: &[Vec<u8>]) -> MappedFile {
    let mut data = b"!<arch>\n".to_vec();
    for m in members {
        data.extend_from_slice(m);
    }
    mapped("lib.a", data)
}

#[test]
fn archive_members_are_listed() {
    let long = b"long_name.o\0body".to_vec();
    let a = archive(&[
        member("__.SYMDEF", "3", b"abc"),
        member("a.o", "5", b"hello"),
        member("#1/12", "16", &long),
    ]);
    let m = read_archive_members(&a).unwrap();
    assert_eq!(m.len(), 2);
    assert_eq!(m[0].name, b"lib.a(a.o)");
    assert_eq!(m[0].data, b"hello");
    assert_eq!(m[0].parent, Some(b"lib.a".to_vec()));
    assert_eq!(m[1].name, b"lib.a(long_name.o)");
    assert_eq!(m[1].data, b"body");
}

#[test]
fn each_archive_error_is_told_apart() {
    let error = |m: Vec<u8>| read_archive_members(&archive(&[m])).unwrap_err();
    assert_eq!(error(member("a.o", "x", b"")), ArchiveError::BadHeader);
    assert_eq!(error(member("#1/x", "4", b"body")), ArchiveError::BadName);
    assert_eq!(error(member("a.o", "100", b"body")), ArchiveError::Truncated);
    assert_eq!(error(member("#1/9", "4", b"body")), ArchiveError::Truncated);
}

#[test]
fn archive_index_is_passed_over_wherever_it_ends() {
    let a = archive(&[member("a.o", "5", b"hello"), member("__.SYMDEF", "1000", b"abc")]);
    let m = read_archive_members(&a).unwrap();
    assert_eq!(m.len(), 1);
    assert_eq!(m[0].data, b"hello");
}

#[test]
fn member_name_that_is_not_text_is_mended() {
    let m = read_archive_members(&archive(&[member("#1/4", "5", b"a\xff.ob")])).unwrap();
    assert_eq!(m[0].name, "lib.a(a\u{fffd}.o)".as_bytes());
    assert_eq!(m[0].data, b"b");
}

#[test]
fn table_is_used_whole_or_not_at_all() {
    assert_eq!(validate_strtab(b"_a\0\xff"), b"");
    assert_eq!(validate_strtab(b"_a\0_b"), b"_a\0_b");
    assert_eq!(validate_strtab("\u{e9}\0".as_bytes()), "\u{e9}\0".as_bytes());
}

fn macho(cputype: u32, filetype: u32) -> Vec<u8> {
    let mut b = Vec::new();
    for v in [0xfeedfacf, cputype, 0, filetype, 0, 0, 0, 0] {
        b.extend_from_slice(&u32::to_le_bytes(v));
    }
    b
}

#[test]
fn file_types_are_told_apart() {
    assert_eq!(get_file_type(b""), FileType::Empty);
    assert_eq!(get_file_type(b"hello"), FileType::Unknown);
    assert_eq!(get_file_type(b"BC\xc0\xde"), FileType::LlvmBitcode);
    assert_eq!(get_file_type(b"\xde\xc0\x17\x0b"), FileType::LlvmBitcode);
    assert_eq!(get_file_type(b"!<arch>\n"), FileType::Archive);
    assert_eq!(get_file_type(&macho(0x0100000c, 1)), FileType::Object);
    assert_eq!(get_file_type(&macho(0x0100000c, 6)), FileType::Dylib);
    assert_eq!(get_file_type(b"--- !tapi-tbd\n"), FileType::Tapi);
}

#[test]
fn target_is_that_of_the_first_object() {
    assert_eq!(get_macho_target(&macho(0x01000007, 1)), Some(TargetName::X86_64));
    assert_eq!(get_macho_target(b"text"), None);
    let files =
        vec![mapped("l.a", b"!<arch>\n".to_vec()), mapped("a.o", macho(0x01000007, 1))];
    assert_eq!(detect_target(&files, TargetName::Arm64), TargetName::X86_64);
    assert_eq!(detect_target(&Vec::new(), TargetName::Arm64), TargetName::Arm64);
}

fn fat(cputype: u32, body: &[u8]) -> Vec<u8> {
    let mut b = Vec::new();
    for v in [0xcafebabe, 1, cputype, 0, 32, body.len() as u32, 0, 0] {
        b.extend_from_slice(&u32::to_be_bytes(v));
    }
    b.extend_from_slice(body);
    b
}

#[test]
fn fat_file_gives_the_slice_of_its_target() {
    let f = mapped("f", fat(0x0100000c, b"slice"));
    let s = get_fat_slice::<Arm64>(&f, b"arm64").unwrap();
    assert_eq!(s.data, b"slice");
    let f = mapped("f", fat(0x01000007, b"slice"));
    assert!(matches!(get_fat_slice::<Arm64>(&f, b"arm64"), Err(FatError::NoSlice)));
    let f = mapped("f", fat(0x0100000c, b"slice")[..20].to_vec());
    assert!(matches!(get_fat_slice::<Arm64>(&f, b"arm64"), Err(FatError::Malformed)));
}

#[test]
fn slices_are_followed_to_the_object() {
    let role = request_of(&InputArg::File(b"f".to_vec())).1;
    let args = Args::default();
    let mut seen = NameSet::new();
    let mut counter: u32 = 4;
    let mut queue: Vec<PendingObject> = Vec::new();
    let mut take = |f: MappedFile, queue: &mut Vec<PendingObject>| {
        collect_file::<Arm64>(&args, role, f, b"arm64", &mut seen, &mut counter, queue)
    };
    let object = macho(0x0100000c, 1);
    let nested = fat(0x0100000c, &fat(0x0100000c, &object));
    assert!(matches!(take(mapped("f", nested.clone()), &mut queue), Ok(Collected::Done)));
    assert_eq!(queue.len(), 1);
    assert_eq!(queue[0].file.data, object);
    assert_eq!(queue[0].priority, 5);
    let inner = queue[0].file.name.clone();
    // The file and its slices are taken in once.
    assert!(matches!(take(mapped("f", nested), &mut queue), Ok(Collected::Done)));
    let again = MappedFile { name: inner, data: object, parent: None };
    assert!(matches!(take(again, &mut queue), Ok(Collected::Done)));
    assert_eq!(queue.len(), 1);
    // A module in a slice is queued like an object.
    let module = fat(0x0100000c, b"BC\xc0\xde....");
    assert!(matches!(take(mapped("m", module), &mut queue), Ok(Collected::Done)));
    assert_eq!(queue[1].file.data, b"BC\xc0\xde....");
    assert_eq!(queue[1].priority, 6);
    // A slice that is the whole file leads nowhere.
    let mut whole = fat(0x0100000c, b"");
    whole[19] = 0;
    whole[23] = whole.len() as u8;
    let r = take(mapped("w", whole), &mut queue);
    assert!(matches!(r, Err(CollectError::Fat(FatError::Malformed))));
    let r = take(mapped("u", b"text".to_vec()), &mut queue);
    assert!(matches!(r, Err(CollectError::UnknownType)));
}

#[test]
fn missing_file_keeps_its_path() {
    assert_eq!(MappedFile::must_open(None, b"gone.o").unwrap_err().path, b"gone.o");
    assert_eq!(MappedFile::must_open(Some(mapped("a.o", vec![1])), b"a.o").unwrap().data, [1]);
}

#[test]
fn names_are_interned_once() {
    let mut t = SymbolTable::new();
    let a = t.intern(b"_a");
    let b = t.intern(b"_b");
    assert_ne!(a, b);
    assert_eq!(t.intern(b"_a"), a);
    assert_eq!(t.get(b"_b"), Some(b));
    assert_eq!(t.get(b"_c"), None);
    let local = t.add_local(b"_a".to_vec());
    assert_ne!(local, a);
    assert_eq!(t.get(b"_a"), Some(a));
    let batch = [(b"_c".to_vec(), hash_key(b"_c")), (b"_a".to_vec(), hash_key(b"_a"))];
    let ids = t.gather(&batch);
    assert_eq!(ids[1], a);
    assert_eq!(t.get(b"_c"), Some(ids[0]));
    assert_eq!(t.syms[ids[0] as usize].name(), b"_c");
}

#[test]
fn batch_gives_new_names_new_symbols() {
    let batch = |names: &[&[u8]]| -> Vec<(Vec<u8>, u64)> {
        names.iter().map(|n| (n.to_vec(), hash_key(n))).collect()
    };
    let fill = |t: &mut SymbolTable| {
        t.intern(b"_a");
        t.add_local(b"_g".to_vec());
        t.gather(&batch(&[b"_g", b"_a", b"_h", b"_g"]))
    };
    let mut t = SymbolTable::new();
    let ids = fill(&mut t);
    // The file-local symbol that bears the name is not taken.
    assert!(ids[0] >= 2);
    assert_eq!(ids[0], ids[3]);
    assert_eq!(ids[1], 0);
    assert_eq!(t.syms.len(), 4);
    let mut new = vec![ids[0], ids[2]];
    new.sort();
    assert_eq!(new, vec![2, 3]);
    assert_eq!(t.get(b"_g"), Some(ids[0]));
    assert_eq!(t.get(b"_a"), Some(0));
    assert_eq!(fill(&mut SymbolTable::new()), ids);
}

#[test]
fn hash_is_xxh3() {
    assert_eq!(hash_key(b""), 0x2d06_8005_38d3_94c2);
    assert_ne!(hash_key(b"_a"), hash_key(b"_b"));
    assert_eq!(shard_of(hash_key(b"_a")), shard_of(hash_key(b"_a")));
}

#[test]
fn name_set_keeps_the_first_order() {
    let mut s = NameSet::new();
    assert!(s.insert(b"b"));
    assert!(s.insert(b"a"));
    assert!(!s.insert(b"b"));
    s.insert_all(&vec![b"a".to_vec(), b"c".to_vec()]);
    assert_eq!(s.into_names(), vec![b"b".to_vec(), b"a".to_vec(), b"c".to_vec()]);
}

#[test]
fn inputs_are_looked_for_by_their_kind() {
    let (t, role) = request_of(&InputArg::NeededLib(b"z".to_vec()));
    assert!(matches!(t, Target::Lib(n) if n == b"z"));
    assert!(role.needed && !role.weak && !role.reexport);
    let (t, role) = request_of(&InputArg::WeakFile(b"a".to_vec()));
    assert!(matches!(t, Target::File(n) if n == b"a"));
    assert!(role.weak && !role.force_load);
    let repeated = repeated_libraries(&vec![
        InputArg::Lib(b"c".to_vec(), false),
        InputArg::File(b"c".to_vec()),
        InputArg::Lib(b"c".to_vec(), true),
    ]);
    assert_eq!(repeated, vec![b"c".to_vec()]);
}

#[test]
fn libraries_are_looked_for_in_order() {
    let dirs = vec![b"/x".to_vec(), b"/y".to_vec()];
    let places = find_library(&dirs, b"z", false);
    assert_eq!(places[0], b"/x/libz.tbd");
    assert!(places.contains(&b"/y/libz.a".to_vec()));
    let first_y = places.iter().position(|p| p.starts_with(b"/y")).unwrap();
    assert!(places[first_y..].iter().all(|p| p.starts_with(b"/y")));
    let places = find_library(&dirs, b"z", true);
    let archives: Vec<bool> = places.iter().map(|p| p.ends_with(b".a")).collect();
    let first = archives.iter().position(|a| *a).unwrap();
    assert!(archives[first..].iter().all(|a| *a));
    let places = find_framework(&dirs, b"F");
    assert_eq!(places[0], b"/x/F.framework/F.tbd");
}

#[test]
fn reexported_library_is_visited_once() {
    let text = "--- !tapi-tbd\ninstall-name: /a\nreexported-libraries:\n  - targets: [ x ]\n    \
                libraries: [ /b, /b ]\n";
    let t = tapi::parse(text.as_bytes()).unwrap();
    let mut w = ReexportWalk::new();
    w.add_stub(&t, b"/dir/a.tbd");
    let n = w.next_library().unwrap();
    assert_eq!(n.name, b"/b");
    assert_eq!(n.dir, b"/dir");
    assert!(w.next_library().is_none());
    assert_eq!(dir_of(b"/dir/a.tbd"), b"/dir");
    assert_eq!(join_dir(b"/dir", b"x"), b"/dir/x");
}

#[test]
fn dependency_info_lists_inputs_and_output() {
    let inputs = list_inputs(&Vec::new(), &vec![b"b".to_vec(), b"a".to_vec(), b"b".to_vec()]);
    assert_eq!(inputs, vec![b"a".to_vec(), b"b".to_vec()]);
    let d = write_dependency_info(b"v", &inputs, b"out");
    assert_eq!(d, b"\x00mold-macho v\0\x10a\0\x10b\0\x40out\0");
}

#[test]
fn order_file_rules_are_read() {
    let texts = vec![b"# all\n_a\narm64:_b\nx86_64:_c\nf.o:_d\n".to_vec()];
    let rules = parse_order_files(&texts, b"arm64");
    assert_eq!(rules.len(), 3);
}

#[test]
fn uleb_reads_back() {
    assert_eq!(try_uleb_at(&[0xe5, 0x8e, 0x26], 0), Some((624485, 3)));
    assert_eq!(try_uleb_at(&[0x80, 0x80], 0), None);
    let mut pos = 1;
    assert_eq!(read_uleb_at(&[0, 0x80, 0x01, 7], &mut pos), 128);
    assert_eq!(pos, 3);
}
