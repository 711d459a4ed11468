//! Links small objects from end to end.
use mold_macho::arch::arm64::Arm64;
use mold_macho::arch::x86_64::X86_64;
use mold_macho::arch::Arch;
use mold_macho::args::Args;
use mold_macho::checks::{check_context, check_lists};
use mold_macho::cmdline::{parse_args, Parsed};
use mold_macho::context::Context;
use mold_macho::input_files::dylib::{parse_dylib, ReexportWalk};
use mold_macho::input_files::register::add_dylib;
use mold_macho::input_files::stage::{stage_object, StageError};
use mold_macho::input_files::{DylibFile, StagedObject};
use mold_macho::macho::MachRel;
use mold_macho::mapfile::print_map;
use mold_macho::mapped_file::MappedFile;
use mold_macho::passes::convert::remove_unreachable_files;
use mold_macho::passes::finish::{finish_image, FinishError, Image};
use mold_macho::passes::identity::{find_hashed_end, stamp_uuid};
use mold_macho::passes::lto::{
    describe_symbol, list_preserved, parse_bitcode, retire_modules, BitcodeSymbol,
};
use mold_macho::passes::output::{copy_mach_header, make_uuid};
use mold_macho::passes::pipeline::{condense_sections, settle_symbols};
use mold_macho::passes::planning::{
    lay_out_sections, plan_sections, prune_sections, PlanError, Wishes,
};
use mold_macho::passes::read_inputs::{load_pending, load_staged, LoadError, PendingObject};
use mold_macho::passes::reports::{print_trace, print_why_live};
use mold_macho::passes::resolve_inputs::resolve_inputs;
use mold_macho::passes::synthetic::list_asked_sections;
use mold_macho::relocatable;
use mold_macho::symbol::Origin;
use mold_macho::tapi;

/// A symbol of an object under test: name, type, section, description, value.
type Sym = (&'static str, u8, u8, u16, u64);

/// A relocation of an object under test: address, packed bits.
type Rel = (u32, u32);

fn push32(buf: &mut Vec<u8>, v: u32) {
    buf.extend_from_slice(&v.to_le_bytes());
}

fn push64(buf: &mut Vec<u8>, v: u64) {
    buf.extend_from_slice(&v.to_le_bytes());
}

fn push_name(buf: &mut Vec<u8>, name: &str) {
    let mut b = name.as_bytes().to_vec();
    b.resize(16, 0);
    buf.extend_from_slice(&b);
}

fn get32(buf: &[u8], off: usize) -> u32 {
    u32::from_le_bytes([buf[off], buf[off + 1], buf[off + 2], buf[off + 3]])
}

fn get64(buf: &[u8], off: usize) -> u64 {
    get32(buf, off) as u64 | (get32(buf, off + 4) as u64) << 32
}

/// A section of an object under test.
struct Sect {
    seg: &'static str,
    name: &'static str,
    flags: u32,
    data: Vec<u8>,
    rels: Vec<Rel>,
}

fn text(code: &[u8], rels: &[Rel]) -> Sect {
    Sect {
        seg: "__TEXT",
        name: "__text",
        flags: 0x80000400,
        data: code.to_vec(),
        rels: rels.to_vec(),
    }
}

/// An object file. Its sections are a multiple of eight bytes apart.
fn build(cputype: u32, sects: &[Sect], syms: &[Sym]) -> Vec<u8> {
    let mut buf: Vec<u8> = Vec::new();
    let seg: u32 = 72 + 80 * sects.len() as u32;
    let start: u32 = 32 + seg + 24;
    let size: u32 = sects.iter().map(|s| (s.data.len() as u32 + 7) & !7).sum();
    let nrels: u32 = sects.iter().map(|s| s.rels.len() as u32).sum();
    let sym_off: u32 = start + size + 8 * nrels;
    let str_off: u32 = sym_off + 16 * syms.len() as u32;
    let mut strtab: Vec<u8> = vec![0];
    let mut strx: Vec<u32> = Vec::new();
    for s in syms {
        strx.push(strtab.len() as u32);
        strtab.extend_from_slice(s.0.as_bytes());
        strtab.push(0);
    }
    for v in [0xfeedfacf, cputype, 0, 1, 2, seg + 24, 0x2000, 0] {
        push32(&mut buf, v);
    }
    push32(&mut buf, 0x19);
    push32(&mut buf, seg);
    push_name(&mut buf, "");
    push64(&mut buf, 0);
    push64(&mut buf, size as u64);
    push64(&mut buf, start as u64);
    push64(&mut buf, size as u64);
    for v in [7, 7, sects.len() as u32, 0] {
        push32(&mut buf, v);
    }
    let mut addr: u32 = 0;
    let mut rel: u32 = start + size;
    for s in sects {
        push_name(&mut buf, s.name);
        push_name(&mut buf, s.seg);
        push64(&mut buf, addr as u64);
        push64(&mut buf, s.data.len() as u64);
        let align = match s.name {
            "__text" => 2,
            "__cstring" => 0,
            _ => 3,
        };
        for v in [start + addr, align, rel, s.rels.len() as u32, s.flags, 0, 0, 0] {
            push32(&mut buf, v);
        }
        addr += (s.data.len() as u32 + 7) & !7;
        rel += 8 * s.rels.len() as u32;
    }
    for v in [2, 24, sym_off, syms.len() as u32, str_off, strtab.len() as u32] {
        push32(&mut buf, v);
    }
    for s in sects {
        buf.extend_from_slice(&s.data);
        buf.resize((buf.len() - start as usize + 7) / 8 * 8 + start as usize, 0);
    }
    for r in sects.iter().flat_map(|s| &s.rels) {
        push32(&mut buf, r.0);
        push32(&mut buf, r.1);
    }
    for (s, x) in syms.iter().zip(&strx) {
        push32(&mut buf, *x);
        buf.push(s.1);
        buf.push(s.2);
        buf.extend_from_slice(&s.3.to_le_bytes());
        push64(&mut buf, s.4);
    }
    buf.extend_from_slice(&strtab);
    buf
}

/// An arm64 object file with a __text section.
fn object(code: &[u8], rels: &[Rel], syms: &[Sym]) -> Vec<u8> {
    build(0x0100000c, &[text(code, rels)], syms)
}

fn words(ws: &[u32]) -> Vec<u8> {
    ws.iter().flat_map(|w| w.to_le_bytes()).collect()
}

fn args(extra: &[&str]) -> Args {
    let mut cmd: Vec<Vec<u8>> = Vec::new();
    for a in ["ld", "-arch", "arm64", "-platform_version", "macos", "12.0", "12.0", "-o", "out"] {
        cmd.push(a.as_bytes().to_vec());
    }
    for a in extra {
        cmd.push(a.as_bytes().to_vec());
    }
    match parse_args(&cmd, &Vec::new()) {
        Ok(Parsed::Link(a)) => a,
        _ => panic!("bad arguments"),
    }
}

fn stage_for<E: Arch>(data: &[u8], name: &str, priority: u32) -> StagedObject {
    stage_object::<E>(data, name.as_bytes().to_vec(), None, true, false, priority, false).unwrap()
}

fn stage(data: &[u8], name: &str, priority: u32) -> StagedObject {
    stage_for::<Arm64>(data, name, priority)
}

/// A context in which the objects are loaded and their symbols resolved.
fn resolved_for<E: Arch>(extra: &[&str], objects: &[Vec<u8>]) -> Context {
    let mut ctx = Context::new(args(extra));
    let mut staged: Vec<StagedObject> = Vec::new();
    for (i, o) in objects.iter().enumerate() {
        staged.push(stage_for::<E>(o, &format!("{i}.o"), i as u32 + 1));
    }
    load_staged(&mut ctx.inputs, staged).unwrap();
    let r = resolve_inputs(&mut ctx).unwrap();
    assert!(r.duplicates.is_empty());
    remove_unreachable_files(&mut ctx.inputs);
    ctx
}

fn resolved(extra: &[&str], objects: &[Vec<u8>]) -> Context {
    resolved_for::<Arm64>(extra, objects)
}

fn link(extra: &[&str], objects: &[Vec<u8>]) -> (Context, Result<Image, FinishError>) {
    link_for::<Arm64>(extra, objects)
}

fn link_for<E: Arch>(extra: &[&str], objects: &[Vec<u8>]) -> (Context, Result<Image, FinishError>) {
    let mut ctx = resolved_for::<E>(extra, objects);
    let p = settle_symbols::<E>(&mut ctx).unwrap();
    assert!(p.missing.is_empty());
    let pruned = prune_sections(&mut ctx).unwrap();
    assert!(pruned.report.errors.is_empty());
    let w = Wishes {
        order: Vec::new(),
        files: Vec::new(),
        asked: list_asked_sections(&p.boundaries),
    };
    let info = plan_sections::<E>(&mut ctx, &w).unwrap();
    let r = finish_image::<E>(&mut ctx, &p.boundaries, b"/tmp", info.unwrap_or(0));
    (ctx, r)
}

/// The load commands of an image: kind, offset.
fn commands(image: &[u8]) -> Vec<(u32, usize)> {
    let mut r = Vec::new();
    let mut off: usize = 32;
    for _ in 0..get32(image, 16) {
        r.push((get32(image, off), off));
        off += get32(image, off + 4) as usize;
    }
    assert_eq!(off, 32 + get32(image, 20) as usize);
    r
}

fn find(cmds: &[(u32, usize)], kind: u32) -> Option<usize> {
    cmds.iter().find(|c| c.0 == kind).map(|c| c.1)
}

/// `mov w0, #0; ret`.
fn main_code() -> Vec<u8> {
    words(&[0x52800000, 0xd65f03c0])
}

#[test]
fn program_starts_at_its_entry_point() {
    let o = object(&main_code(), &[], &[("_main", 0x0f, 1, 0, 0)]);
    let (_, r) = link(&["0.o"], &[o]);
    let image = r.unwrap().bytes;
    assert_eq!(get32(&image, 0), 0xfeedfacf);
    assert_eq!(get32(&image, 4), 0x0100000c);
    // MH_EXECUTE
    assert_eq!(get32(&image, 12), 2);
    let cmds = commands(&image);
    // LC_MAIN's entry offset is where the code is.
    let entry = find(&cmds, 0x8000_0028).unwrap();
    let at = get64(&image, entry + 8) as usize;
    assert_eq!(&image[at..at + 8], &main_code()[..]);
    // __PAGEZERO, __TEXT and __LINKEDIT.
    assert_eq!(cmds.iter().filter(|c| c.0 == 0x19).count(), 3);
}

/// A branch relocation at `at` to the symbol with that number.
fn branch(at: u32, symnum: u32) -> Rel {
    let r = MachRel::pack(at, symnum, true, 2, true, 2);
    (r.r_address, r.bits)
}

/// `bl` to the next instruction but one, as a call before relocation.
fn caller_code() -> Vec<u8> {
    words(&[0x94000000, 0xd65f03c0])
}

fn library(text: &str, path: &str) -> DylibFile {
    let t = tapi::parse(text.as_bytes()).unwrap();
    let mut w = ReexportWalk::new();
    w.add_stub(&t, path.as_bytes());
    assert!(w.next_library().is_none());
    parse_dylib(t, w, path.as_bytes())
}

fn libsystem() -> DylibFile {
    library(
        "--- !tapi-tbd\ntbd-version: 4\ntargets: [ arm64-macos ]\n\
         install-name: '/usr/lib/libSystem.B.dylib'\nexports:\n  - targets: [ arm64-macos ]\n    \
         symbols: [ _exit, dyld_stub_binder ]\n...\n",
        "/sdk/usr/lib/libSystem.tbd",
    )
}

/// The segment command of that name.
fn segment(image: &[u8], name: &str) -> usize {
    for c in commands(image) {
        let field = String::from_utf8_lossy(&image[c.1 + 8..c.1 + 24]).into_owned();
        if c.0 == 0x19 && field.trim_end_matches('\0') == name {
            return c.1;
        }
    }
    panic!("no segment {name}")
}

/// The file offset and size of a section of an image.
fn section(image: &[u8], seg: &str, sect: &str) -> (u64, u64, u64) {
    let at = segment(image, seg);
    for i in 0..get32(image, at + 64) as usize {
        let s = at + 72 + 80 * i;
        let name = String::from_utf8(image[s..s + 16].to_vec()).unwrap();
        if name.trim_end_matches('\0') == sect {
            return (get64(image, s + 32), get64(image, s + 40), get32(image, s + 48) as u64);
        }
    }
    panic!("no section {seg},{sect}")
}

#[test]
fn call_reaches_the_other_object() {
    let a = object(
        &caller_code(),
        &[branch(0, 1)],
        &[("_main", 0x0f, 1, 0, 0), ("_f", 0x01, 0, 0, 0)],
    );
    let b = object(&main_code(), &[], &[("_f", 0x0f, 1, 0, 0)]);
    let (_, r) = link(&["0.o", "1.o"], &[a, b]);
    let image = r.unwrap().bytes;
    let (_, size, off) = section(&image, "__TEXT", "__text");
    assert_eq!(size, 16);
    // The call skips two instructions.
    assert_eq!(get32(&image, off as usize), 0x94000002);
    assert_eq!(&image[off as usize + 8..off as usize + 16], &main_code()[..]);
}

#[test]
fn sections_lie_apart_within_their_segments() {
    let o = object(&main_code(), &[], &[("_main", 0x0f, 1, 0, 0)]);
    let (ctx, r) = link(&["0.o"], &[o]);
    let size = r.unwrap().bytes.len() as u64;
    assert_eq!(ctx.layout.output_size, size);
    for s in &ctx.layout.segments {
        assert_eq!(s.cmd.vmaddr % 0x4000, 0);
        let mut end = s.cmd.fileoff;
        for c in &s.chunks {
            let h = &ctx.layout.chunks[*c].hdr;
            assert!(h.fileoff >= end);
            end = h.fileoff + h.size;
            assert!(end <= s.cmd.fileoff + s.cmd.filesize);
            assert!(end <= size);
        }
    }
}

#[test]
fn missing_entry_point_is_an_error() {
    let o = object(&main_code(), &[], &[("_f", 0x0f, 1, 0, 0)]);
    let (_, r) = link(&["0.o"], &[o]);
    assert!(matches!(r, Err(FinishError::NoEntry)));
}

#[test]
fn undefined_symbol_is_reported_with_its_user() {
    let o = object(
        &caller_code(),
        &[branch(0, 1)],
        &[("_main", 0x0f, 1, 0, 0), ("_missing", 0x01, 0, 0, 0)],
    );
    let mut ctx = resolved(&["0.o"], &[o]);
    settle_symbols::<Arm64>(&mut ctx).unwrap();
    let p = prune_sections(&mut ctx).unwrap();
    assert_eq!(p.report.errors.len(), 1);
    let e = &p.report.errors[0];
    assert_eq!(ctx.inputs.symtab.syms[e.sym as usize].name(), b"_missing");
    assert_eq!(e.wanted_by, Some(0));
}

#[test]
fn undefined_symbol_may_be_left_to_the_loader() {
    let o = object(
        &caller_code(),
        &[branch(0, 1)],
        &[("_main", 0x0f, 1, 0, 0), ("_missing", 0x01, 0, 0, 0)],
    );
    let mut ctx = resolved(&["0.o", "-undefined", "dynamic_lookup"], &[o]);
    settle_symbols::<Arm64>(&mut ctx).unwrap();
    let p = prune_sections(&mut ctx).unwrap();
    assert!(p.report.errors.is_empty());
    let id = ctx.inputs.symtab.get(b"_missing").unwrap();
    assert!(ctx.inputs.symtab.syms[id as usize].flags.is_imported);
}

#[test]
fn two_strong_definitions_are_duplicates() {
    let o = object(&main_code(), &[], &[("_main", 0x0f, 1, 0, 0)]);
    let mut ctx = Context::new(args(&["0.o", "1.o"]));
    load_staged(&mut ctx.inputs, vec![stage(&o, "0.o", 1), stage(&o, "1.o", 2)]).unwrap();
    let r = resolve_inputs(&mut ctx).unwrap();
    let id = ctx.inputs.symtab.get(b"_main").unwrap();
    assert_eq!(r.duplicates, vec![(id, 1)]);
}

#[test]
fn first_weak_definition_wins() {
    let weak = object(&main_code(), &[], &[("_main", 0x0f, 1, 0x80, 0)]);
    let mut ctx = Context::new(args(&["0.o", "1.o"]));
    load_staged(&mut ctx.inputs, vec![stage(&weak, "0.o", 1), stage(&weak, "1.o", 2)]).unwrap();
    let r = resolve_inputs(&mut ctx).unwrap();
    assert!(r.duplicates.is_empty());
    let id = ctx.inputs.symtab.get(b"_main").unwrap();
    assert!(matches!(ctx.inputs.symtab.syms[id as usize].origin(), Origin::Obj(0)));
}

#[test]
fn archive_member_is_loaded_for_what_it_defines() {
    let a = object(
        &caller_code(),
        &[branch(0, 1)],
        &[("_main", 0x0f, 1, 0, 0), ("_f", 0x01, 0, 0, 0)],
    );
    let f = object(&main_code(), &[], &[("_f", 0x0f, 1, 0, 0)]);
    let g = object(&main_code(), &[], &[("_g", 0x0f, 1, 0, 0)]);
    let mut ctx = Context::new(args(&["0.o"]));
    let mut staged = vec![stage(&a, "0.o", 1)];
    for (o, name, priority) in [(&f, "f.o", 2), (&g, "g.o", 3)] {
        let parent = Some(b"lib.a".to_vec());
        let name = name.as_bytes().to_vec();
        staged.push(
            stage_object::<Arm64>(o, name, parent, false, false, priority, false).unwrap(),
        );
    }
    load_staged(&mut ctx.inputs, staged).unwrap();
    resolve_inputs(&mut ctx).unwrap();
    let alive: Vec<bool> = ctx.inputs.objs.iter().map(|o| o.is_alive).collect();
    assert_eq!(alive, vec![true, true, false]);
    remove_unreachable_files(&mut ctx.inputs);
    let kept: Vec<bool> = ctx.inputs.isecs.iter().map(|s| s.is_alive).collect();
    assert_eq!(kept, vec![true, true, false]);
}

#[test]
fn dead_function_is_stripped() {
    let mut code = main_code();
    code.extend(main_code());
    let o = object(&code, &[], &[("_main", 0x0f, 1, 0, 0), ("_dead", 0x0e, 1, 0, 8)]);
    let (_, kept) = link(&["0.o", "-no_deduplicate"], &[o.clone()]);
    let (_, stripped) = link(&["0.o", "-no_deduplicate", "-dead_strip"], &[o]);
    assert_eq!(section(&kept.unwrap().bytes, "__TEXT", "__text").1, 16);
    assert_eq!(section(&stripped.unwrap().bytes, "__TEXT", "__text").1, 8);
}

#[test]
fn why_live_names_the_chain_of_references() {
    let a = object(
        &caller_code(),
        &[branch(0, 1)],
        &[("_main", 0x0f, 1, 0, 0), ("_f", 0x01, 0, 0, 0)],
    );
    let b = object(&main_code(), &[], &[("_f", 0x0f, 1, 0, 0)]);
    let mut ctx = resolved(&["0.o", "1.o", "-dead_strip", "-why_live", "_f"], &[a, b]);
    settle_symbols::<Arm64>(&mut ctx).unwrap();
    let p = prune_sections(&mut ctx).unwrap();
    let lines = print_why_live(&ctx.args, &ctx.inputs, p.walk.as_ref().unwrap());
    let text: Vec<String> =
        lines.iter().map(|l| String::from_utf8_lossy(l).into_owned()).collect();
    assert!(text[0].contains("_f"));
    assert!(text.iter().any(|l| l.contains("_main")));
}

#[test]
fn identical_functions_are_folded() {
    let mut code = words(&[0x94000000, 0x94000000, 0xd65f03c0]);
    code.extend(words(&[0x52800020, 0xd65f03c0]));
    code.extend(words(&[0x52800020, 0xd65f03c0]));
    let o = object(
        &code,
        &[branch(4, 2), branch(0, 1)],
        &[("_main", 0x0f, 1, 0, 0), ("_f", 0x1f, 1, 0x80, 12), ("_g", 0x1f, 1, 0x80, 20)],
    );
    let (_, r) = link(&["0.o"], &[o]);
    let image = r.unwrap().bytes;
    let (_, size, off) = section(&image, "__TEXT", "__text");
    // One of the two copies is gone, and both calls go to the other.
    assert_eq!(size, 20);
    assert_eq!(get32(&image, off as usize), 0x94000003);
    assert_eq!(get32(&image, off as usize + 4), 0x94000002);
}

/// `_main` calls `_f` and `_g`, which have the same bytes and call what the
/// relocations say.
fn two_callers(f: u32, g: u32, rest: &[u32], more: &[Sym]) -> Vec<u8> {
    let mut code = words(&[0x94000000, 0x94000000, 0xd65f03c0]);
    code.extend(words(&[0x94000000, 0xd65f03c0, 0x94000000, 0xd65f03c0]));
    code.extend(words(rest));
    let mut syms: Vec<Sym> =
        vec![("_main", 0x0f, 1, 0, 0), ("_f", 0x1f, 1, 0x80, 12), ("_g", 0x1f, 1, 0x80, 20)];
    syms.extend_from_slice(more);
    let rels = [branch(20, g), branch(12, f), branch(4, 2), branch(0, 1)];
    object(&code, &rels, &syms)
}

#[test]
fn functions_that_call_different_code_are_not_folded() {
    let more = [("_h", 0x1f, 1, 0x80, 28), ("_k", 0x1f, 1, 0x80, 36)];
    let o = two_callers(3, 4, &[0x52800020, 0xd65f03c0, 0x52800040, 0xd65f03c0], &more);
    let (_, r) = link(&["0.o"], &[o]);
    assert_eq!(section(&r.unwrap().bytes, "__TEXT", "__text").1, 44);
}

#[test]
fn functions_are_compared_up_to_folding() {
    let more = [("_h", 0x1f, 1, 0x80, 28), ("_k", 0x1f, 1, 0x80, 36)];
    let o = two_callers(3, 4, &[0x52800020, 0xd65f03c0, 0x52800020, 0xd65f03c0], &more);
    let (ctx, r) = link(&["0.o"], &[o]);
    assert_eq!(section(&r.unwrap().bytes, "__TEXT", "__text").1, 28);
    let folded = ctx.inputs.isecs.iter().filter(|s| s.replacement != u32::MAX).count();
    assert_eq!(folded, 2);
}

#[test]
fn imported_function_is_called_through_a_stub() {
    let o = object(
        &caller_code(),
        &[branch(0, 1)],
        &[("_main", 0x0f, 1, 0, 0), ("_exit", 0x01, 0, 0, 0)],
    );
    let mut ctx = Context::new(args(&["0.o"]));
    load_staged(&mut ctx.inputs, vec![stage(&o, "0.o", 1)]).unwrap();
    let d = add_dylib(&ctx.args, &mut ctx.dylibs, libsystem(), 2).unwrap();
    assert_eq!((d.index, d.forbidden), (0, false));
    resolve_inputs(&mut ctx).unwrap();
    remove_unreachable_files(&mut ctx.inputs);
    let p = settle_symbols::<Arm64>(&mut ctx).unwrap();
    assert!(prune_sections(&mut ctx).unwrap().report.errors.is_empty());
    let w = Wishes { order: Vec::new(), files: Vec::new(), asked: Vec::new() };
    plan_sections::<Arm64>(&mut ctx, &w).unwrap();
    let id = ctx.inputs.symtab.get(b"_exit").unwrap();
    assert_eq!(ctx.slots.stub_syms, vec![id]);
    assert_eq!(ctx.slots.got_syms, vec![id]);
    let image = finish_image::<Arm64>(&mut ctx, &p.boundaries, b"/tmp", 0).unwrap().bytes;
    let (text, _, text_off) = section(&image, "__TEXT", "__text");
    let (stubs, size, stub_off) = section(&image, "__TEXT", "__stubs");
    assert_eq!(size, 12);
    let call = get32(&image, text_off as usize);
    assert_eq!(call, 0x94000000 | ((stubs - text) / 4) as u32);
    // The stub loads its pointer: adrp, ldr, br.
    assert_eq!(get32(&image, stub_off as usize) & 0x9f00001f, 0x90000010);
    assert_eq!(get32(&image, stub_off as usize + 8), 0xd61f0200);
    // The pointer is bound by the one chained import, the last of its chain.
    let (_, got_size, got_off) = section(&image, "__DATA_CONST", "__got");
    assert_eq!(got_size, 8);
    assert_eq!(get64(&image, got_off as usize), 1 << 63);
    // LC_LOAD_DYLIB names the library.
    let cmds = commands(&image);
    let load = find(&cmds, 0xc).unwrap();
    let name = &image[load + 24..load + 24 + 26];
    assert_eq!(name, b"/usr/lib/libSystem.B.dylib");
    // LC_DYLD_CHAINED_FIXUPS is there, LC_DYLD_INFO_ONLY is not.
    assert!(find(&cmds, 0x8000_0034).is_some());
    assert!(find(&cmds, 0x8000_0022).is_none());
}

#[test]
fn old_target_binds_with_opcodes() {
    binds_with_opcodes(&["0.o", "-no_fixup_chains"]);
    binds_with_opcodes(&["0.o", "-no_fixup_chains", "-bind_at_load"]);
}

fn binds_with_opcodes(extra: &[&str]) {
    let o = object(
        &caller_code(),
        &[branch(0, 1)],
        &[("_main", 0x0f, 1, 0, 0), ("_exit", 0x01, 0, 0, 0)],
    );
    let mut ctx = Context::new(args(extra));
    load_staged(&mut ctx.inputs, vec![stage(&o, "0.o", 1)]).unwrap();
    add_dylib(&ctx.args, &mut ctx.dylibs, libsystem(), 2).unwrap();
    resolve_inputs(&mut ctx).unwrap();
    let p = settle_symbols::<Arm64>(&mut ctx).unwrap();
    prune_sections(&mut ctx).unwrap();
    let w = Wishes { order: Vec::new(), files: Vec::new(), asked: Vec::new() };
    plan_sections::<Arm64>(&mut ctx, &w).unwrap();
    let r = finish_image::<Arm64>(&mut ctx, &p.boundaries, b"/tmp", 0).unwrap();
    let cmds = commands(&r.bytes);
    let info = find(&cmds, 0x8000_0022).unwrap();
    let off = get32(&r.bytes, info + 16) as usize;
    let size = get32(&r.bytes, info + 20) as usize;
    let bind = &r.bytes[off..off + size];
    assert!(bind.windows(6).any(|w| w == b"_exit\0"));
    assert!(find(&cmds, 0x8000_0034).is_none());
    // The stub and its slot each have an indirect symbol.
    let dysymtab = find(&cmds, 0xb).unwrap();
    assert_eq!(get32(&r.bytes, dysymtab + 60), 2);
}

#[test]
fn library_that_nothing_needs_is_dropped() {
    let o = object(&main_code(), &[], &[("_main", 0x0f, 1, 0, 0)]);
    let mut ctx = Context::new(args(&["0.o", "-dead_strip_dylibs"]));
    load_staged(&mut ctx.inputs, vec![stage(&o, "0.o", 1)]).unwrap();
    add_dylib(&ctx.args, &mut ctx.dylibs, libsystem(), 2).unwrap();
    resolve_inputs(&mut ctx).unwrap();
    settle_symbols::<Arm64>(&mut ctx).unwrap();
    prune_sections(&mut ctx).unwrap();
    let w = Wishes { order: Vec::new(), files: Vec::new(), asked: Vec::new() };
    plan_sections::<Arm64>(&mut ctx, &w).unwrap();
    assert!(ctx.dylibs.is_empty());
}

#[test]
fn order_file_moves_a_function_to_the_front() {
    let mut code = main_code();
    code.extend(words(&[0x52800020, 0xd65f03c0]));
    let o = object(&code, &[], &[("_main", 0x0f, 1, 0, 0), ("_f", 0x0f, 1, 0, 8)]);
    let mut ctx = resolved(&["0.o"], &[o]);
    let p = settle_symbols::<Arm64>(&mut ctx).unwrap();
    prune_sections(&mut ctx).unwrap();
    let w = Wishes {
        order: vec![b"# functions\n_f\n".to_vec()],
        files: Vec::new(),
        asked: Vec::new(),
    };
    plan_sections::<Arm64>(&mut ctx, &w).unwrap();
    let image = finish_image::<Arm64>(&mut ctx, &p.boundaries, b"/tmp", 0).unwrap().bytes;
    let (_, _, off) = section(&image, "__TEXT", "__text");
    assert_eq!(get32(&image, off as usize), 0x52800020);
    assert_eq!(get32(&image, off as usize + 8), 0x52800000);
}

#[test]
fn dylib_exports_its_functions() {
    let o = object(&main_code(), &[], &[("_f", 0x0f, 1, 0, 0), ("_hidden", 0x1f, 1, 0, 4)]);
    let (ctx, r) = link(&["0.o", "-dylib", "-install_name", "libf.dylib"], &[o]);
    let r = r.unwrap();
    // MH_DYLIB
    assert_eq!(get32(&r.bytes, 12), 6);
    let cmds = commands(&r.bytes);
    let id = find(&cmds, 0xd).unwrap();
    assert_eq!(&r.bytes[id + 24..id + 34], b"libf.dylib");
    // The trie has one edge, "_f", to a node with flags 0 and the address.
    assert_eq!(&r.tables.trie[0..5], &[0, 1, b'_', b'f', 0]);
    let f = ctx.inputs.symtab.get(b"_f").unwrap();
    assert!(ctx.inputs.symtab.syms[f as usize].is_defined());
    assert_eq!(r.id.nextdef, 1);
    assert_eq!(r.id.nundef, 0);
}

#[test]
fn export_lists_hold_patterns() {
    let code: Vec<u8> = words(&[0xd65f03c0; 4]);
    let syms = [
        ("_f", 0x0f, 1, 0, 0),
        ("_fa", 0x0f, 1, 0, 4),
        ("_fb", 0x0f, 1, 0, 8),
        ("_g", 0x0f, 1, 0, 12),
    ];
    let trie = |extra: &[&str]| {
        let mut all = vec!["0.o", "-dylib", "-install_name", "libf.dylib"];
        all.extend_from_slice(extra);
        link(&all, &[object(&code, &[], &syms)]).1.unwrap().tables.trie
    };
    let only = |names: &[&'static str]| {
        let mut all = Vec::new();
        for name in names {
            all.extend_from_slice(&["-exported_symbol", name]);
        }
        trie(&all)
    };
    assert_eq!(only(&["_f*"]), only(&["_f", "_fa", "_fb"]));
    assert_eq!(only(&["_f?"]), only(&["_fa", "_fb"]));
    assert_eq!(only(&["_[e-g]"]), only(&["_f", "_g"]));
    assert_ne!(only(&["_f*"]), only(&["_f"]));
    assert_eq!(trie(&["-unexported_symbol", "_f*"]), only(&["_g"]));
    assert_eq!(trie(&["-exported_symbol", "*", "-unexported_symbol", "_f?"]), only(&["_f", "_g"]));
}

#[test]
fn uuid_goes_into_the_header() {
    let o = object(&main_code(), &[], &[("_main", 0x0f, 1, 0, 0)]);
    let (ctx, r) = link(&["0.o"], &[o]);
    let mut r = r.unwrap();
    let hash: Vec<u8> = (0..32).collect();
    r.id.uuid = make_uuid(&hash);
    copy_mach_header::<Arm64>(&ctx, &r.id, &mut r.bytes).unwrap();
    let cmds = commands(&r.bytes);
    let at = find(&cmds, 0x1b).unwrap();
    let uuid = &r.bytes[at + 8..at + 24];
    assert_eq!(uuid[6] >> 4, 4);
    assert_eq!(uuid[8] >> 6, 2);
    assert_eq!(&uuid[0..6], &hash[0..6]);
}

#[test]
fn uuid_depends_on_the_contents_alone() {
    let stamp = |extra: &[&str], code: &[u8]| {
        let o = object(code, &[], &[("_main", 0x0f, 1, 0, 0)]);
        let (ctx, r) = link(extra, &[o]);
        let mut r = r.unwrap();
        let before = r.bytes.clone();
        let end = find_hashed_end(&ctx, &r.bytes);
        assert!(end <= before.len());
        // Any hash will do.
        let sum: u8 = before[..end].iter().fold(0, |a, b| a.wrapping_mul(31).wrapping_add(*b));
        let hash: Vec<u8> = (0..32).map(|i: u8| sum.wrapping_add(i)).collect();
        stamp_uuid::<Arm64>(&ctx, &hash, &mut r.id, &mut r.bytes).unwrap();
        let at = find(&commands(&r.bytes), 0x1b).unwrap() + 8;
        assert_eq!(before[at..at + 16], [0; 16]);
        assert_eq!(before[..at], r.bytes[..at]);
        assert_eq!(before[at + 16..], r.bytes[at + 16..]);
        r.bytes[at..at + 16].to_vec()
    };
    let a = stamp(&["0.o"], &main_code());
    assert_eq!(a, stamp(&["0.o"], &main_code()));
    assert_eq!((a[6] >> 4, a[8] >> 6), (4, 2));
    assert_ne!(a, stamp(&["0.o"], &words(&[0x52800020, 0xd65f03c0])));
    assert_eq!(stamp(&["0.o", "-no_uuid"], &main_code()), vec![0; 16]);
}

/// Merges objects into one.
fn merge(objects: &[Vec<u8>]) -> Vec<u8> {
    let mut ctx = resolved(&["0.o", "-r"], objects);
    assert!(condense_sections(&mut ctx));
    let w = Wishes { order: Vec::new(), files: Vec::new(), asked: Vec::new() };
    let info = lay_out_sections::<Arm64>(&mut ctx, &w).unwrap();
    assert!(check_context(&ctx));
    assert!(check_lists(&ctx.layout.chunks, ctx.inputs.isecs.len()));
    relocatable::link::<Arm64>(&mut ctx, b"/tmp", info.unwrap_or(0)).unwrap()
}

#[test]
fn relocatable_output_can_be_linked_again() {
    let a = object(
        &caller_code(),
        &[branch(0, 1)],
        &[("_main", 0x0f, 1, 0, 0), ("_f", 0x01, 0, 0, 0)],
    );
    let b = object(&main_code(), &[], &[("_f", 0x0f, 1, 0, 0)]);
    let direct = link(&["0.o", "1.o"], &[a.clone(), b.clone()]).1.unwrap().bytes;
    let merged = merge(&[a, b]);
    // MH_OBJECT
    assert_eq!(get32(&merged, 12), 1);
    let again = link(&["0.o"], &[merged]).1.unwrap().bytes;
    let x = section(&direct, "__TEXT", "__text");
    let y = section(&again, "__TEXT", "__text");
    assert_eq!(x, y);
    let (from, to) = (x.2 as usize, (x.2 + x.1) as usize);
    assert_eq!(direct[from..to], again[from..to]);
}

#[test]
fn map_lists_objects_sections_and_symbols() {
    let o = object(&main_code(), &[], &[("_main", 0x0f, 1, 0, 0)]);
    let (ctx, r) = link(&["0.o"], &[o]);
    r.unwrap();
    let text = String::from_utf8(print_map::<Arm64>(&ctx, b"arm64")).unwrap();
    assert!(text.starts_with("# Path: out\n# Arch: arm64\n"));
    assert!(text.contains("0.o"));
    assert!(text.contains("__TEXT\t__text"));
    assert!(text.contains("_main"));
}

#[test]
fn trace_names_live_objects_and_libraries() {
    let o = object(&main_code(), &[], &[("_main", 0x0f, 1, 0, 0)]);
    let mut ctx = resolved(&["0.o"], &[o]);
    add_dylib(&ctx.args, &mut ctx.dylibs, libsystem(), 2).unwrap();
    let lines = print_trace(&ctx.inputs.objs, &ctx.dylibs);
    assert_eq!(lines, vec![b"0.o".to_vec(), b"/sdk/usr/lib/libSystem.tbd".to_vec()]);
}

#[test]
fn boundary_symbol_is_the_start_of_its_section() {
    let o = object(
        &caller_code(),
        &[branch(0, 1)],
        &[("_main", 0x0f, 1, 0, 0), ("section$start$__TEXT$__text", 0x01, 0, 0, 0)],
    );
    let (_, r) = link(&["0.o"], &[o]);
    let image = r.unwrap().bytes;
    let (_, _, off) = section(&image, "__TEXT", "__text");
    // The call goes to itself.
    assert_eq!(get32(&image, off as usize), 0x94000000);
}

#[test]
fn common_symbol_gets_zero_filled_space() {
    let o = object(
        &main_code(),
        &[],
        &[("_main", 0x0f, 1, 0, 0), ("_buf", 0x01, 0, 0x0300, 40)],
    );
    let (ctx, r) = link(&["0.o"], &[o]);
    let image = r.unwrap().bytes;
    let (addr, size, off) = section(&image, "__DATA", "__common");
    assert_eq!((size, off), (40, 0));
    assert_eq!(addr % 8, 0);
    let id = ctx.inputs.symtab.get(b"_buf").unwrap();
    assert!(!ctx.inputs.symtab.syms[id as usize].flags.is_common);
}

#[test]
fn library_beats_a_common_symbol() {
    let o = object(
        &main_code(),
        &[],
        &[("_main", 0x0f, 1, 0, 0), ("_buf", 0x01, 0, 0x0300, 40)],
    );
    let mut ctx = Context::new(args(&["0.o"]));
    load_staged(&mut ctx.inputs, vec![stage(&o, "0.o", 1)]).unwrap();
    add_dylib(&ctx.args, &mut ctx.dylibs, library_of("_buf"), 2).unwrap();
    resolve_inputs(&mut ctx).unwrap();
    let id = ctx.inputs.symtab.get(b"_buf").unwrap() as usize;
    let buf = &ctx.inputs.symtab.syms[id];
    assert!(matches!(buf.origin(), Origin::Dylib(0)));
    assert!(buf.flags.is_imported);
    assert!(!buf.flags.is_common);
}

#[test]
fn names_of_a_table_that_is_not_text_are_empty() {
    let mut o = object(&main_code(), &[], &[("_main", 0x0f, 1, 0, 0)]);
    let last = o.len() - 1;
    assert_eq!(stage(&o, "0.o", 1).sym_names, vec![b"_main".to_vec()]);
    o[last] = 0xff;
    assert_eq!(stage(&o, "0.o", 1).sym_names, vec![Vec::<u8>::new()]);
}

#[test]
fn queued_objects_are_parsed_and_loaded() {
    let pending = |name: &str, data: Vec<u8>, priority: u32| PendingObject {
        file: MappedFile { name: name.as_bytes().to_vec(), data, parent: None },
        alive: true,
        hidden: false,
        priority,
    };
    let o = object(&main_code(), &[], &[("_main", 0x0f, 1, 0, 0)]);
    let mut ctx = Context::new(args(&["0.o"]));
    let queue = vec![pending("0.o", o.clone(), 1)];
    load_pending::<Arm64>(&mut ctx.inputs, queue, false).unwrap();
    assert_eq!(ctx.inputs.objs.len(), 1);
    assert!(ctx.inputs.symtab.get(b"_main").is_some());
    let queue = vec![pending("1.o", o, 2), pending("2.o", vec![0; 8], 3)];
    let r = load_pending::<Arm64>(&mut ctx.inputs, queue, false);
    assert_eq!(r, Err(LoadError::Stage(1, StageError::Truncated)));
    assert_eq!(ctx.inputs.objs.len(), 1);
}

#[test]
fn local_symbol_does_not_stand_for_a_later_global() {
    let local = object(
        &main_code(),
        &[],
        &[("_f", 0x0e, 1, 0, 0), ("_main", 0x0f, 1, 0, 0)],
    );
    let global = object(&main_code(), &[], &[("_f", 0x0f, 1, 0, 0)]);
    let mut ctx = Context::new(args(&["0.o"]));
    load_staged(&mut ctx.inputs, vec![stage(&local, "0.o", 1)]).unwrap();
    let before = ctx.inputs.symtab.syms.len();
    assert_eq!(ctx.inputs.symtab.get(b"_f"), None);
    load_staged(&mut ctx.inputs, vec![stage(&global, "1.o", 2)]).unwrap();
    let id = ctx.inputs.symtab.get(b"_f").unwrap() as usize;
    assert_eq!(id, before);
    // The earlier batch's names are still known.
    assert!(ctx.inputs.symtab.get(b"_main").is_some());
}

#[test]
fn sections_are_told_apart_by_the_fields_of_their_names() {
    let a = build(
        0x0100000c,
        &[text(&main_code(), &[]), pointer(0, 0, "__data")],
        &[("_main", 0x0f, 1, 0, 0)],
    );
    let mut b = build(0x0100000c, &[pointer(0, 0, "__data")], &[("_main", 0x01, 0, 0, 0)]);
    let sections = |objects: &[Vec<u8>]| {
        let image = link(&["0.o"], objects).1.unwrap().bytes;
        get32(&image, segment(&image, "__DATA") + 64)
    };
    assert_eq!(sections(&[a.clone(), b.clone()]), 1);
    // What follows the NUL of the name counts.
    b[32 + 72 + 8] = 1;
    assert_eq!(sections(&[a, b]), 2);
}

#[test]
fn references_between_sections_are_listed_on_request() {
    let o = build(
        0x0100000c,
        &[text(&main_code(), &[]), pointer(0, 0, "__data")],
        &[("_main", 0x0f, 1, 0, 0), ("_p", 0x0f, 2, 0, 8)],
    );
    let image = link(&["0.o"], &[o.clone()]).1.unwrap().bytes;
    assert_eq!(find(&commands(&image), 0x1e), None);
    let image = link(&["0.o", "-split_seg_info"], &[o.clone()]).1.unwrap().bytes;
    let cmd = find(&commands(&image), 0x1e).unwrap();
    assert_eq!(get32(&image, cmd + 4), 16);
    let at = get32(&image, cmd + 8) as usize;
    let len = get32(&image, cmd + 12) as usize;
    // One 64-bit pointer at the start of section 2, to that of section 1.
    assert_eq!(image[at..at + len], [0x7f, 1, 2, 1, 1, 0, 1, 2, 1, 0, 0, 0, 0, 0, 0, 0]);
    let image = link(&["0.o", "-split_seg_info", "-no_split_seg_info"], &[o]).1.unwrap().bytes;
    assert_eq!(find(&commands(&image), 0x1e), None);
}

#[test]
fn object_of_another_processor_is_refused() {
    let mut o = object(&main_code(), &[], &[]);
    o[4] = 7;
    let r = stage_object::<Arm64>(&o, b"0.o".to_vec(), None, true, false, 1, false);
    assert!(matches!(r, Err(StageError::IncompatibleCpu)));
}

#[test]
fn truncated_object_is_refused() {
    let o = object(&main_code(), &[], &[("_main", 0x0f, 1, 0, 0)]);
    for n in [0, 16, 40, o.len() - 8] {
        let r = stage_object::<Arm64>(&o[..n], b"0.o".to_vec(), None, true, false, 1, false);
        assert!(r.is_err());
    }
}

#[test]
fn relocation_to_nothing_is_refused() {
    let o = object(&caller_code(), &[branch(0, 7)], &[("_main", 0x0f, 1, 0, 0)]);
    let st = stage_object::<Arm64>(&o, b"0.o".to_vec(), None, true, false, 1, false);
    let mut ctx = Context::new(args(&["0.o"]));
    let bad = match st {
        Ok(st) => load_staged(&mut ctx.inputs, vec![st]).is_err(),
        Err(_) => true,
    };
    assert!(bad);
}

#[test]
fn strong_functions_are_not_folded() {
    let mut code = main_code();
    code.extend(main_code());
    let o = object(&code, &[], &[("_main", 0x0f, 1, 0, 0), ("_f", 0x0f, 1, 0, 8)]);
    let (_, r) = link(&["0.o"], &[o]);
    assert_eq!(section(&r.unwrap().bytes, "__TEXT", "__text").1, 16);
}

#[test]
fn x86_64_call_reaches_the_other_object() {
    let call = MachRel::pack(1, 1, true, 2, true, 2);
    let a = build(
        0x01000007,
        &[text(&[0xe8, 0, 0, 0, 0, 0xc3, 0x90, 0x90], &[(call.r_address, call.bits)])],
        &[("_main", 0x0f, 1, 0, 0), ("_f", 0x01, 0, 0, 0)],
    );
    let b = build(0x01000007, &[text(&[0x31, 0xc0, 0xc3], &[])], &[("_f", 0x0f, 1, 0, 0)]);
    let (_, r) = link_for::<X86_64>(&["0.o", "1.o"], &[a, b]);
    let image = r.unwrap().bytes;
    assert_eq!(get32(&image, 4), 0x01000007);
    let (_, _, off) = section(&image, "__TEXT", "__text");
    // From behind the call, at five, to the next section, at eight.
    assert_eq!(get32(&image, off as usize + 1), 3);
}

#[test]
fn equal_strings_become_one() {
    let strings = |data: &[u8]| Sect {
        seg: "__TEXT",
        name: "__cstring",
        flags: 2,
        data: data.to_vec(),
        rels: Vec::new(),
    };
    let a = build(
        0x0100000c,
        &[text(&main_code(), &[]), strings(b"hello\0world\0")],
        &[("_main", 0x0f, 1, 0, 0)],
    );
    let b = build(0x0100000c, &[text(&main_code(), &[]), strings(b"world\0again\0")], &[]);
    let (_, r) = link(&["0.o", "1.o"], &[a, b]);
    let image = r.unwrap().bytes;
    let (_, size, off) = section(&image, "__TEXT", "__cstring");
    let data = &image[off as usize..(off + size) as usize];
    let mut words: Vec<&[u8]> = data.split(|c| *c == 0).filter(|w| !w.is_empty()).collect();
    words.sort();
    let want: Vec<&[u8]> = vec![b"again", b"hello", b"world"];
    assert_eq!(words, want);
}

/// A data section with a pointer to the function whose symbol has that number.
fn pointer(symnum: u32, flags: u32, name: &'static str) -> Sect {
    let r = MachRel::pack(0, symnum, false, 3, true, 0);
    Sect { seg: "__DATA", name, flags, data: vec![0; 8], rels: vec![(r.r_address, r.bits)] }
}

#[test]
fn pointer_is_rebased() {
    let o = build(
        0x0100000c,
        &[text(&main_code(), &[]), pointer(0, 0, "__data")],
        &[("_main", 0x0f, 1, 0, 0), ("_p", 0x0f, 2, 0, 8)],
    );
    let (_, chained) = link(&["0.o"], &[o.clone()]);
    let chained = chained.unwrap().bytes;
    let (main, _, _) = section(&chained, "__TEXT", "__text");
    let (_, _, off) = section(&chained, "__DATA", "__data");
    // The last rebase of its chain: the target's address and no next pointer.
    assert_eq!(get64(&chained, off as usize), main);
    let (_, plain) = link(&["0.o", "-no_fixup_chains"], &[o]);
    let plain = plain.unwrap();
    let (main, _, _) = section(&plain.bytes, "__TEXT", "__text");
    let (_, _, off) = section(&plain.bytes, "__DATA", "__data");
    assert_eq!(get64(&plain.bytes, off as usize), main);
    assert_eq!(plain.tables.rebase[0], 0x11);
}

#[test]
fn initializers_are_listed_by_offset() {
    let o = build(
        0x0100000c,
        &[text(&main_code(), &[]), pointer(0, 9, "__mod_init_func")],
        &[("_main", 0x0f, 1, 0, 0)],
    );
    let (ctx, r) = link(&["0.o", "-init_offsets"], &[o]);
    let image = r.unwrap().bytes;
    assert_eq!(ctx.init_funcs.len(), 1);
    let (main, _, _) = section(&image, "__TEXT", "__text");
    let (_, size, off) = section(&image, "__TEXT", "__init_offsets");
    assert_eq!(size, 4);
    assert_eq!(get32(&image, off as usize) as u64, main - 0x1_0000_0000);
}

#[test]
fn unwind_record_reaches_the_output() {
    // One function of eight bytes with a frame.
    let mut record = vec![0; 8];
    push32(&mut record, 8);
    push32(&mut record, 0x0400_0000);
    record.resize(32, 0);
    let r = MachRel::pack(0, 1, false, 3, false, 0);
    let o = build(
        0x0100000c,
        &[
            text(&main_code(), &[]),
            Sect {
                seg: "__LD",
                name: "__compact_unwind",
                flags: 0x0200_0000,
                data: record,
                rels: vec![(r.r_address, r.bits)],
            },
        ],
        &[("_main", 0x0f, 1, 0, 0)],
    );
    let (ctx, r) = link(&["0.o"], &[o]);
    let image = r.unwrap().bytes;
    assert_eq!(ctx.inputs.unwind_records.len(), 1);
    assert_eq!(ctx.inputs.unwind_records[0].encoding, 0x0400_0000);
    let (_, size, off) = section(&image, "__TEXT", "__unwind_info");
    assert!(size >= 28);
    // The version of the format.
    assert_eq!(get32(&image, off as usize), 1);
    let (main, _, _) = section(&image, "__TEXT", "__text");
    let index = off as usize + get32(&image, off as usize + 20) as usize;
    assert_eq!(get32(&image, index) as u64, main - 0x1_0000_0000);
}

fn bitcode(name: &str, is_defined: bool, is_extern: bool) -> BitcodeSymbol {
    BitcodeSymbol {
        name: name.as_bytes().to_vec(),
        is_extern,
        is_defined,
        is_private_extern: false,
        is_weak_def: false,
    }
}

#[test]
fn bitcode_symbols_are_described_by_their_attributes() {
    let s = describe_symbol(b"_f".to_vec(), 0x300 | 0x1000);
    assert_eq!(s.name, b"_f");
    assert!(s.is_extern && s.is_defined && s.is_private_extern && s.is_weak_def);
    let s = describe_symbol(b"_g".to_vec(), 0x400 | 0x800);
    assert!(!s.is_extern && !s.is_defined && !s.is_private_extern && !s.is_weak_def);
    assert!(!describe_symbol(b"_h".to_vec(), 0x500).is_defined);
    assert!(describe_symbol(b"_k".to_vec(), 0x100).is_defined);
}

#[test]
fn bitcode_module_is_replaced_by_its_object() {
    let a = object(
        &caller_code(),
        &[branch(0, 1)],
        &[("_main", 0x0f, 1, 0, 0), ("_f", 0x01, 0, 0, 0)],
    );
    let syms = vec![
        bitcode("_f", true, true),
        bitcode("_g", true, true),
        bitcode("_local", true, false),
        bitcode("_h", false, false),
    ];
    let module = parse_bitcode(b"m.bc".to_vec(), None, &syms, true, 2);
    assert_eq!(module.sym_names, vec![b"_f".to_vec(), b"_g".to_vec(), b"_h".to_vec()]);
    assert_eq!(module.nlists[0].n_type, 0x03);
    assert_eq!(module.nlists[2].n_type, 0x01);
    let mut ctx = Context::new(args(&["0.o"]));
    load_staged(&mut ctx.inputs, vec![stage(&a, "0.o", 1), module]).unwrap();
    ctx.inputs.objs[1].lto_module = Some(7);
    resolve_inputs(&mut ctx).unwrap();
    // Nothing but the entry point and what the other object calls is kept.
    let kept = list_preserved(&ctx.inputs, &ctx.args);
    assert_eq!(kept, vec![b"_f".to_vec(), b"_main".to_vec()]);
    let f = ctx.inputs.symtab.get(b"_f").unwrap() as usize;
    assert!(matches!(ctx.inputs.symtab.syms[f].origin(), Origin::Obj(1)));
    retire_modules(&mut ctx.inputs, &vec![1]);
    assert!(!ctx.inputs.symtab.syms[f].is_defined());
    assert!(!ctx.inputs.objs[1].is_alive);
    let compiled = object(&main_code(), &[], &[("_f", 0x0f, 1, 0, 0)]);
    load_staged(&mut ctx.inputs, vec![stage(&compiled, "<LTO>", 3)]).unwrap();
    resolve_inputs(&mut ctx).unwrap();
    assert!(matches!(ctx.inputs.symtab.syms[f].origin(), Origin::Obj(2)));
}

#[test]
fn linker_names_itself_as_a_tool() {
    let o = object(&main_code(), &[], &[("_main", 0x0f, 1, 0, 0)]);
    let (_, r) = link(&["0.o"], &[o]);
    let image = r.unwrap().bytes;
    let at = find(&commands(&image), 0x32).unwrap();
    // Platform, minimum version and SDK version, then one tool.
    assert_eq!(get32(&image, at + 8), 1);
    assert_eq!(get32(&image, at + 12), 0x000c_0000);
    assert_eq!(get32(&image, at + 16), 0x000c_0000);
    assert_eq!(get32(&image, at + 20), 1);
    assert_eq!(get32(&image, at + 24), 54321);
    assert_eq!(get32(&image, at + 28), 1);
}

#[test]
fn frame_description_reaches_the_output() {
    let mut eh: Vec<u8> = Vec::new();
    push32(&mut eh, 16);
    push32(&mut eh, 0);
    eh.extend_from_slice(b"\x01zR\0\x01\x78\x1e\x01\x10\0\0\0");
    push32(&mut eh, 24);
    push32(&mut eh, 24);
    // The function at 0, from the field at 36.
    push64(&mut eh, (-36i64) as u64);
    push64(&mut eh, 8);
    eh.extend_from_slice(&[0, 0, 0, 0]);
    assert_eq!(eh.len(), 48);
    let o = build(
        0x0100000c,
        &[
            text(&main_code(), &[]),
            Sect {
                seg: "__TEXT",
                name: "__eh_frame",
                flags: 0x6800_000b,
                data: eh,
                rels: Vec::new(),
            },
        ],
        &[("_main", 0x0f, 1, 0, 0)],
    );
    let st = stage(&o, "0.o", 1);
    assert_eq!((st.cies.len(), st.fdes.len(), st.unwind.len()), (1, 1, 1));
    assert_eq!((st.fdes[0].func_offset, st.fdes[0].code_len), (0, 8));
    assert_eq!(st.unwind[0].fde, Some(0));
    let (_, r) = link(&["0.o"], &[o]);
    let image = r.unwrap().bytes;
    let (main, _, _) = section(&image, "__TEXT", "__text");
    let (addr, size, off) = section(&image, "__TEXT", "__eh_frame");
    assert_eq!(size, 48);
    let begin = get64(&image, off as usize + 28);
    assert_eq!((addr + 28).wrapping_add(begin), main);
    // The unwinder is sent to the frame description.
    let (_, _, unwind) = section(&image, "__TEXT", "__unwind_info");
    assert_eq!(get32(&image, unwind as usize), 1);
}

/// A frame section behind code of the given length, with a description of
/// each function: its offset and length.
fn frames(text_len: usize, funcs: &[(u64, u64)]) -> Sect {
    let mut data: Vec<u8> = Vec::new();
    push32(&mut data, 16);
    push32(&mut data, 0);
    data.extend_from_slice(b"\x01zR\0\x01\x78\x1e\x01\x10\0\0\0");
    for (func, len) in funcs {
        push32(&mut data, 24);
        let cie = data.len() as u32;
        push32(&mut data, cie);
        let at = (text_len + data.len()) as u64;
        push64(&mut data, func.wrapping_sub(at));
        push64(&mut data, *len);
        data.extend_from_slice(&[0, 0, 0, 0]);
    }
    Sect { seg: "__TEXT", name: "__eh_frame", flags: 0x6800_000b, data, rels: Vec::new() }
}

/// Two objects that share the weak function `_f`, all functions with frame
/// descriptions.
fn two_with_frames() -> [Vec<u8>; 2] {
    let f = words(&[0x52800020, 0xd65f03c0]);
    let mut a = main_code();
    a.extend_from_slice(&f);
    let mut b = f;
    b.extend(words(&[0x52800060, 0xd65f03c0]));
    let all = [(0, 8), (8, 8)];
    [
        build(
            0x0100000c,
            &[text(&a, &[]), frames(16, &all)],
            &[("_main", 0x0f, 1, 0, 0), ("_f", 0x0f, 1, 0x80, 8)],
        ),
        build(
            0x0100000c,
            &[text(&b, &[]), frames(16, &all)],
            &[("_f", 0x0f, 1, 0x80, 0), ("_h", 0x0f, 1, 0, 8)],
        ),
    ]
}

#[test]
fn record_names_its_frame_after_folding() {
    let (ctx, r) = link(&["0.o"], &two_with_frames());
    let image = r.unwrap().bytes;
    let x = &ctx.inputs;
    // The copy of `_f` that lost has no description any more.
    assert_eq!((x.fdes.len(), x.unwind_records.len()), (3, 4));
    let mut named = Vec::new();
    for rec in &x.unwind_records {
        match rec.fde {
            Some(f) => {
                assert_eq!(x.fdes[f].isec, rec.isec);
                assert_eq!(x.fdes[f].func_offset, rec.input_offset);
                named.push(f);
            }
            None => assert_ne!(x.isecs[rec.isec].replacement, u32::MAX),
        }
    }
    assert_eq!(named, vec![0, 1, 2]);
    // The last entry of the unwind table leads to the last description.
    let (eh, _, off) = section(&image, "__TEXT", "__eh_frame");
    let h = ctx.inputs.symtab.get(b"_h").unwrap() as usize;
    let last = x.fdes[2].output_offset as usize;
    let begin = get64(&image, off as usize + last + 8);
    let at = (eh + last as u64 + 8).wrapping_add(begin);
    let isec = &x.isecs[x.symtab.syms[h].isec as usize];
    let (code, _, _) = section(&image, "__TEXT", "__text");
    assert_eq!(at, code + isec.output_offset);
    let (_, size, unwind) = section(&image, "__TEXT", "__unwind_info");
    let table = &image[unwind as usize..(unwind + size) as usize];
    let mode = 0x0300_0000 | last as u32;
    assert!((0..table.len() / 4).any(|i| get32(table, 4 * i) == mode));
}

#[test]
fn merged_object_describes_each_function_once() {
    let merged = merge(&two_with_frames());
    let st = stage(&merged, "0.o", 1);
    assert_eq!((st.fdes.len(), st.unwind.len()), (3, 3));
    assert!(st.unwind.iter().all(|r| r.fde.is_some()));
}

#[test]
fn truncated_frame_description_is_refused() {
    let o = build(
        0x0100000c,
        &[
            text(&main_code(), &[]),
            Sect {
                seg: "__TEXT",
                name: "__eh_frame",
                flags: 0x6800_000b,
                data: vec![100, 0, 0, 0, 0, 0, 0, 0],
                rels: Vec::new(),
            },
        ],
        &[("_main", 0x0f, 1, 0, 0)],
    );
    let r = stage_object::<Arm64>(&o, b"0.o".to_vec(), None, true, false, 1, false);
    assert!(matches!(r, Err(StageError::Unwind(_))));
}

fn library_of(symbols: &str) -> DylibFile {
    library(
        &format!(
            "--- !tapi-tbd\ntbd-version: 4\ntargets: [ arm64-macos ]\n\
             install-name: '/usr/lib/libX.dylib'\nexports:\n  - targets: [ arm64-macos ]\n    \
             symbols: [ {symbols} ]\n...\n"
        ),
        "/sdk/usr/lib/libX.tbd",
    )
}

/// Links one object with one library.
fn link_with(o: &[u8], d: DylibFile) -> (Context, Vec<u8>) {
    let mut ctx = Context::new(args(&["0.o"]));
    load_staged(&mut ctx.inputs, vec![stage(o, "0.o", 1)]).unwrap();
    add_dylib(&ctx.args, &mut ctx.dylibs, d, 2).unwrap();
    resolve_inputs(&mut ctx).unwrap();
    remove_unreachable_files(&mut ctx.inputs);
    let p = settle_symbols::<Arm64>(&mut ctx).unwrap();
    assert!(prune_sections(&mut ctx).unwrap().report.errors.is_empty());
    let w = Wishes { order: Vec::new(), files: Vec::new(), asked: Vec::new() };
    plan_sections::<Arm64>(&mut ctx, &w).unwrap();
    let image = finish_image::<Arm64>(&mut ctx, &p.boundaries, b"/tmp", 0).unwrap().bytes;
    (ctx, image)
}

#[test]
fn selector_call_goes_through_its_stub() {
    let o = object(
        &caller_code(),
        &[branch(0, 1)],
        &[("_main", 0x0f, 1, 0, 0), ("_objc_msgSend$foo", 0x01, 0, 0, 0)],
    );
    let (ctx, image) = link_with(&o, library_of("_objc_msgSend"));
    assert_eq!(ctx.slots.objc_stubs.len(), 1);
    assert_eq!(ctx.slots.objc_stubs[0].1, b"foo");
    let (text, _, off) = section(&image, "__TEXT", "__text");
    let (stubs, size, _) = section(&image, "__TEXT", "__objc_stubs");
    assert_eq!(size, 32);
    assert_eq!(get32(&image, off as usize), 0x94000000 | ((stubs - text) / 4) as u32);
    let (_, size, names) = section(&image, "__TEXT", "__objc_methname");
    assert_eq!(&image[names as usize..(names + size) as usize], b"foo\0");
    assert_eq!(section(&image, "__DATA", "__objc_selrefs").1, 8);
}

#[test]
fn thread_local_variable_has_a_descriptor() {
    let code = words(&[0x90000000, 0xf9400000, 0xd65f03c0]);
    let page = MachRel::pack(0, 1, true, 2, true, 8);
    let pageoff = MachRel::pack(4, 1, false, 2, true, 9);
    let boot = MachRel::pack(0, 3, false, 3, true, 0);
    let init = MachRel::pack(16, 2, false, 3, true, 0);
    let o = build(
        0x0100000c,
        &[
            text(&code, &[(pageoff.r_address, pageoff.bits), (page.r_address, page.bits)]),
            Sect {
                seg: "__DATA",
                name: "__thread_vars",
                flags: 0x13,
                data: vec![0; 24],
                rels: vec![(init.r_address, init.bits), (boot.r_address, boot.bits)],
            },
            Sect {
                seg: "__DATA",
                name: "__thread_data",
                flags: 0x11,
                data: vec![42, 0, 0, 0, 0, 0, 0, 0],
                rels: Vec::new(),
            },
        ],
        &[
            ("_main", 0x0f, 1, 0, 0),
            ("_t", 0x0f, 2, 0, 16),
            ("_t$tlv$init", 0x0e, 3, 0, 40),
            ("__tlv_bootstrap", 0x01, 0, 0, 0),
        ],
    );
    let (ctx, image) = link_with(&o, library_of("__tlv_bootstrap"));
    // MH_HAS_TLV_DESCRIPTORS
    assert_ne!(get32(&image, 24) & 0x80_0000, 0);
    let (_, size, vars) = section(&image, "__DATA", "__thread_vars");
    assert_eq!(size, 24);
    // The initial value is the first of the thread-local data.
    assert_eq!(get64(&image, vars as usize + 16), 0);
    let (data, _, off) = section(&image, "__DATA", "__thread_data");
    assert_eq!(image[off as usize], 42);
    assert_eq!(ctx.layout.tls_begin, data);
}

#[test]
fn weak_definition_is_kept_once() {
    let weak = |n: u32| {
        object(
            &words(&[0x52800000 | n << 5, 0xd65f03c0]),
            &[],
            &[("_w", 0x0f, 1, 0x80, 0)],
        )
    };
    let main = object(
        &caller_code(),
        &[branch(0, 1)],
        &[("_main", 0x0f, 1, 0, 0), ("_w", 0x01, 0, 0, 0)],
    );
    let (_, r) = link(&["0.o", "1.o", "2.o"], &[main, weak(1), weak(2)]);
    let image = r.unwrap().bytes;
    let (_, size, off) = section(&image, "__TEXT", "__text");
    assert_eq!(size, 16);
    assert_eq!(get32(&image, off as usize + 8), 0x52800020);
}

#[test]
fn imported_data_is_loaded_from_its_slot() {
    let code = words(&[0x90000000, 0xf9400000, 0xd65f03c0]);
    let page = MachRel::pack(0, 1, true, 2, true, 5);
    let pageoff = MachRel::pack(4, 1, false, 2, true, 6);
    let o = object(
        &code,
        &[(pageoff.r_address, pageoff.bits), (page.r_address, page.bits)],
        &[("_main", 0x0f, 1, 0, 0), ("_environ", 0x01, 0, 0, 0)],
    );
    let (ctx, image) = link_with(&o, library_of("_environ"));
    assert_eq!(ctx.slots.got_syms.len(), 1);
    assert!(ctx.slots.stub_syms.is_empty());
    let (text, _, off) = section(&image, "__TEXT", "__text");
    let (got, size, _) = section(&image, "__DATA_CONST", "__got");
    assert_eq!(size, 8);
    let adrp = get32(&image, off as usize);
    let pages = ((adrp >> 5) & 0x7ffff) << 2 | (adrp >> 29) & 3;
    let load = get32(&image, off as usize + 4);
    let at = (text & !0xfff) + ((pages as u64) << 12) + 8 * ((load >> 10) & 0xfff) as u64;
    assert_eq!(at, got);
}

#[test]
fn difference_of_two_addresses_is_stored() {
    let minus = MachRel::pack(0, 0, false, 3, true, 1);
    let plus = MachRel::pack(0, 1, false, 3, true, 0);
    let mut code = main_code();
    code.extend(words(&[0x52800020, 0xd65f03c0]));
    let o = build(
        0x0100000c,
        &[
            text(&code, &[]),
            Sect {
                seg: "__DATA",
                name: "__data",
                flags: 0,
                data: vec![0; 8],
                rels: vec![(minus.r_address, minus.bits), (plus.r_address, plus.bits)],
            },
        ],
        &[("_main", 0x0f, 1, 0, 0), ("_f", 0x0f, 1, 0, 8), ("_d", 0x0f, 2, 0, 16)],
    );
    let (_, r) = link(&["0.o"], &[o]);
    let r = r.unwrap();
    let (_, _, off) = section(&r.bytes, "__DATA", "__data");
    assert_eq!(get64(&r.bytes, off as usize), 8);
    // It is no address, so that nothing slides it.
    assert!(r.tables.rebase.is_empty());
}

#[test]
fn file_becomes_a_section() {
    let o = object(&main_code(), &[], &[("_main", 0x0f, 1, 0, 0)]);
    let mut ctx = resolved(&["0.o", "-sectcreate", "__DATA", "__blob", "file"], &[o]);
    let p = settle_symbols::<Arm64>(&mut ctx).unwrap();
    prune_sections(&mut ctx).unwrap();
    let none = Wishes { order: Vec::new(), files: Vec::new(), asked: Vec::new() };
    assert_eq!(plan_sections::<Arm64>(&mut ctx, &none), Err(PlanError::TooMany));
    let w = Wishes { order: Vec::new(), files: vec![b"hello".to_vec()], asked: Vec::new() };
    plan_sections::<Arm64>(&mut ctx, &w).unwrap();
    let image = finish_image::<Arm64>(&mut ctx, &p.boundaries, b"/tmp", 0).unwrap().bytes;
    let (_, size, off) = section(&image, "__DATA", "__blob");
    assert_eq!(&image[off as usize..(off + size) as usize], b"hello");
}

#[test]
fn alias_is_another_name_of_a_function() {
    let o = object(&main_code(), &[], &[("_main", 0x0f, 1, 0, 0)]);
    let (ctx, r) = link(&["0.o", "-alias", "_main", "_start"], &[o.clone()]);
    r.unwrap();
    let id = |name: &str| ctx.inputs.symtab.get(name.as_bytes()).unwrap() as usize;
    let (a, b) = (&ctx.inputs.symtab.syms[id("_main")], &ctx.inputs.symtab.syms[id("_start")]);
    assert_eq!((a.isec(), a.value), (b.isec(), b.value));
    let mut ctx = resolved(&["0.o", "-alias", "_gone", "_start"], &[o]);
    let p = settle_symbols::<Arm64>(&mut ctx).unwrap();
    assert_eq!(p.missing, vec![b"_gone".to_vec()]);
}

#[test]
fn relocatable_output_keeps_data_and_unwind_records() {
    let mut record = vec![0; 8];
    push32(&mut record, 8);
    push32(&mut record, 0x0400_0000);
    record.resize(32, 0);
    let unwind = MachRel::pack(0, 1, false, 3, false, 0);
    let strings = |data: &[u8]| Sect {
        seg: "__TEXT",
        name: "__cstring",
        flags: 2,
        data: data.to_vec(),
        rels: Vec::new(),
    };
    let a = build(
        0x0100000c,
        &[
            text(&main_code(), &[]),
            pointer(1, 0, "__data"),
            strings(b"hello\0world\0"),
            Sect {
                seg: "__LD",
                name: "__compact_unwind",
                flags: 0x0200_0000,
                data: record,
                rels: vec![(unwind.r_address, unwind.bits)],
            },
        ],
        &[("_main", 0x0f, 1, 0, 0), ("_f", 0x01, 0, 0, 0), ("_p", 0x0f, 2, 0, 8)],
    );
    let b = build(
        0x0100000c,
        &[text(&words(&[0x52800020, 0xd65f03c0]), &[]), strings(b"world\0")],
        &[("_f", 0x0f, 1, 0, 0)],
    );
    let merged = merge(&[a.clone(), b.clone()]);
    let st = stage(&merged, "merged.o", 1);
    assert_eq!(st.unwind.len(), 1);
    assert_eq!((st.unwind[0].code_len, st.unwind[0].encoding), (8, 0x0400_0000));
    let extra = ["0.o", "-no_fixup_chains"];
    let direct = link(&extra, &[a, b]).1.unwrap().bytes;
    let again = link(&extra, &[merged]).1.unwrap().bytes;
    for (seg, name) in [("__TEXT", "__text"), ("__DATA", "__data"), ("__TEXT", "__cstring")] {
        let x = section(&direct, seg, name);
        let y = section(&again, seg, name);
        assert_eq!(x.1, y.1, "{name}");
        let part = |image: &[u8], s: (u64, u64, u64)| {
            image[s.2 as usize..(s.2 + s.1) as usize].to_vec()
        };
        assert_eq!(part(&direct, x), part(&again, y), "{name}");
    }
}

#[test]
fn x86_64_import_is_called_through_a_stub() {
    let call = MachRel::pack(1, 1, true, 2, true, 2);
    let o = build(
        0x01000007,
        &[text(&[0xe8, 0, 0, 0, 0, 0xc3], &[(call.r_address, call.bits)])],
        &[("_main", 0x0f, 1, 0, 0), ("_exit", 0x01, 0, 0, 0)],
    );
    let mut ctx = Context::new(args(&["0.o"]));
    load_staged(&mut ctx.inputs, vec![stage_for::<X86_64>(&o, "0.o", 1)]).unwrap();
    add_dylib(&ctx.args, &mut ctx.dylibs, libsystem(), 2).unwrap();
    resolve_inputs(&mut ctx).unwrap();
    let p = settle_symbols::<X86_64>(&mut ctx).unwrap();
    assert!(prune_sections(&mut ctx).unwrap().report.errors.is_empty());
    let w = Wishes { order: Vec::new(), files: Vec::new(), asked: Vec::new() };
    plan_sections::<X86_64>(&mut ctx, &w).unwrap();
    let image = finish_image::<X86_64>(&mut ctx, &p.boundaries, b"/tmp", 0).unwrap().bytes;
    let (text, _, text_off) = section(&image, "__TEXT", "__text");
    let (stubs, size, stub_off) = section(&image, "__TEXT", "__stubs");
    assert_eq!(size, 6);
    let call = get32(&image, text_off as usize + 1) as u64;
    assert_eq!(text + 5 + call, stubs);
    // jmp *slot(%rip)
    assert_eq!(&image[stub_off as usize..stub_off as usize + 2], &[0xff, 0x25]);
    let (got, _, _) = section(&image, "__DATA_CONST", "__got");
    assert_eq!(stubs + 6 + get32(&image, stub_off as usize + 2) as u64, got);
}
