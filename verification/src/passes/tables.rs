//! Collects what the export trie, the unwind table and the table of
//! references between sections are made from.
use super::slots::is_thread_local_sym;
use crate::arch::Arch;
use crate::chunks::split_info::{
    encode_split_info, SplitEntry, DYLD_CACHE_ADJ_V2_ARM64_ADRP, DYLD_CACHE_ADJ_V2_ARM64_BR26,
    DYLD_CACHE_ADJ_V2_ARM64_OFF12, DYLD_CACHE_ADJ_V2_POINTER_32, DYLD_CACHE_ADJ_V2_POINTER_64,
};
use crate::context::Context;
use crate::input_files::UnwindRecord;
use crate::input_sections::{InputSection, Reloc, NO_REPLACEMENT, UNSET};
use crate::inputs::resolve_isec;
use crate::macho::consts::{
    ARM64_RELOC_BRANCH26, ARM64_RELOC_GOT_LOAD_PAGE21, ARM64_RELOC_GOT_LOAD_PAGEOFF12,
    ARM64_RELOC_PAGE21, ARM64_RELOC_PAGEOFF12, ARM64_RELOC_UNSIGNED,
};
use crate::output_chunks::export_trie::{encode_export_trie, Export, ExportView, Exported};
use crate::output_chunks::unwind_info::{encode_unwind_info, EncodeError, UnwindEntry};
use crate::symbol::{Origin, Symbol};
use crate::util::{bytes, glob, order};
use vstd::prelude::*;

verus! {

/// True when the export lists let a name out: it matches the list of exported
/// names, if there is one, and not that of unexported names.
pub open spec fn is_let_out(ctx: Context, name: Seq<u8>) -> bool {
    &&& ctx.args.exported_symbols matches Some(l) ==> glob::any_matches(bytes::views(l@), name)
    &&& !glob::any_matches(bytes::views(ctx.args.unexported_symbols@), name)
}

/// What the first of a symbol's entries in a list of aliases stands for,
/// from the `i`th on.
pub open spec fn alias_target(aliases: Seq<(u32, u32)>, id: u32, i: int) -> Option<u32>
    decreases aliases.len() - i,
{
    if i < 0 || i >= aliases.len() {
        None
    } else if aliases[i].0 == id {
        Some(aliases[i].1)
    } else {
        alias_target(aliases, id, i + 1)
    }
}

/// True when the symbols that aliases stand for exist.
pub open spec fn aliases_exist(ctx: Context) -> bool {
    forall|i: int|
        0 <= i < ctx.indirect_aliases.len() ==> (#[trigger] ctx.indirect_aliases[i]).1
            < ctx.inputs.symtab.syms.len()
}

/// The flags of an exported definition: 4 for a weak one, 1 for a
/// thread-local one.
pub open spec fn export_flags(ctx: Context, id: int) -> u32 {
    let weak = ctx.inputs.symtab.syms[id].flags.is_weak_def;
    let tlv = super::slots::thread_local(ctx, id);
    if weak && tlv {
        5
    } else if weak {
        4
    } else if tlv {
        1
    } else {
        0
    }
}

/// What the trie says of a symbol. `None` for one that is not exported.
pub open spec fn export_of<E: Arch>(ctx: Context, id: u32) -> Option<ExportView> {
    let syms = ctx.inputs.symtab.syms;
    if !is_let_out(ctx, syms[id as int].name@) {
        None
    } else {
        match alias_target(ctx.indirect_aliases@, id, 0) {
            Some(t) => match syms[t as int].defined_by() {
                Origin::Dylib(d) => Some(
                    ExportView::Reexport {
                        ordinal: bytes::word32(ctx.ordinal_of(d) as int),
                        name: syms[t as int].name@,
                    },
                ),
                _ => None,
            },
            None => Some(
                ExportView::Addr {
                    flags: export_flags(ctx, id as int),
                    addr: bytes::word64(
                        ctx.addr_of_sym::<E>(id as int) - ctx.args.sw.pagezero_size,
                    ),
                },
            ),
        }
    }
}

/// The exports among the first `n` symbols of a list.
pub open spec fn exports_to<E: Arch>(ctx: Context, ids: Seq<u32>, n: int) -> Seq<
    (Seq<u8>, ExportView),
>
    decreases n,
{
    if n <= 0 {
        Seq::empty()
    } else {
        match export_of::<E>(ctx, ids[n - 1]) {
            Some(e) => exports_to::<E>(ctx, ids, n - 1).push(
                (ctx.inputs.symtab.syms[ids[n - 1] as int].name@, e),
            ),
            None => exports_to::<E>(ctx, ids, n - 1),
        }
    }
}

fn check_let_out(ctx: &Context, name: &[u8]) -> (r: bool)
    ensures
        r == is_let_out(*ctx, name@),
{
    if let Some(l) = &ctx.args.exported_symbols {
        if !glob::match_any(l, name) {
            return false;
        }
    }
    !glob::match_any(&ctx.args.unexported_symbols, name)
}

fn find_alias(aliases: &Vec<(u32, u32)>, id: u32) -> (r: Option<u32>)
    ensures
        r == alias_target(aliases@, id, 0),
        r matches Some(t) ==> exists|i: int|
            0 <= i < aliases.len() && (#[trigger] aliases[i]).1 == t,
{
    let mut i: usize = 0;
    while i < aliases.len()
        invariant
            i <= aliases.len(),
            alias_target(aliases@, id, i as int) == alias_target(aliases@, id, 0),
        decreases aliases.len() - i,
    {
        if aliases[i].0 == id {
            assert(aliases@[i as int].1 == aliases[i as int].1);
            return Some(aliases[i].1);
        }
        i += 1;
    }
    None
}

fn find_export<E: Arch>(ctx: &Context, id: u32) -> (r: Option<Export>)
    requires
        ctx.wf(),
        aliases_exist(*ctx),
        id < ctx.inputs.symtab.syms.len(),
    ensures
        match r {
            Some(e) => export_of::<E>(*ctx, id) == Some(e@),
            None => export_of::<E>(*ctx, id) is None,
        },
{
    let s: &Symbol = &ctx.inputs.symtab.syms[id as usize];
    if !check_let_out(ctx, s.name.as_slice()) {
        return None;
    }
    if let Some(t) = find_alias(&ctx.indirect_aliases, id) {
        let target: &Symbol = &ctx.inputs.symtab.syms[t as usize];
        assert(ctx.sym_ok(*target));
        return match target.origin() {
            Origin::Dylib(d) => {
                let o: i32 = ctx.bind_ordinal(d);
                proof {
                    bytes::lemma_word32_word64(o as int);
                }
                let ordinal: u32 = bytes::low32(bytes::from_signed64(o as i64));
                Some(Export::Reexport { ordinal, name: bytes::to_vec(target.name.as_slice()) })
            },
            _ => None,
        };
    }
    assert(ctx.sym_ok(*s));
    let tlv: bool = is_thread_local_sym(ctx, id);
    let flags: u32 = if s.flags.is_weak_def && tlv {
        5
    } else if s.flags.is_weak_def {
        4
    } else if tlv {
        1
    } else {
        0
    };
    let addr: u64 = bytes::distance(ctx.sym_addr::<E>(id), ctx.args.sw.pagezero_size);
    Some(Export::Addr { flags, addr })
}

/// Lists what the export trie says of the given symbols.
pub fn list_exports<E: Arch>(ctx: &Context, ids: &Vec<u32>) -> (r: Vec<Exported>)
    requires
        ctx.wf(),
        aliases_exist(*ctx),
        forall|i: int| 0 <= i < ids.len() ==> (#[trigger] ids[i]) < ctx.inputs.symtab.syms.len(),
    ensures
        crate::output_chunks::export_trie::exported_views(r@) == exports_to::<E>(
            *ctx,
            ids@,
            ids.len() as int,
        ),
{
    let mut r: Vec<Exported> = Vec::new();
    assert(crate::output_chunks::export_trie::exported_views(r@) =~= Seq::empty());
    let mut n: usize = 0;
    while n < ids.len()
        invariant
            n <= ids.len(),
            ctx.wf(),
            aliases_exist(*ctx),
            forall|i: int|
                0 <= i < ids.len() ==> (#[trigger] ids[i]) < ctx.inputs.symtab.syms.len(),
            crate::output_chunks::export_trie::exported_views(r@) == exports_to::<E>(
                *ctx,
                ids@,
                n as int,
            ),
        decreases ids.len() - n,
    {
        let id: u32 = ids[n];
        if let Some(export) = find_export::<E>(ctx, id) {
            let ghost before = r@;
            let name: Vec<u8> = bytes::to_vec(ctx.inputs.symtab.syms[id as usize].name.as_slice());
            let e = Exported { name, export };
            let ghost ev = e@;
            r.push(e);
            assert(crate::output_chunks::export_trie::exported_views(r@)
                =~= crate::output_chunks::export_trie::exported_views(before).push(ev));
        }
        n += 1;
    }
    r
}

fn check_increasing(names: &Vec<Exported>) -> (r: bool)
    ensures
        r == crate::output_chunks::export_trie::names_increase(
            crate::output_chunks::export_trie::exported_views(names@),
        ),
{
    let ghost nv = crate::output_chunks::export_trie::exported_views(names@);
    let mut n: usize = 1;
    while n < names.len()
        invariant
            1 <= n,
            nv == crate::output_chunks::export_trie::exported_views(names@),
            n <= names.len() || names.len() == 0,
            forall|i: int, j: int|
                0 <= i < j < n && j < nv.len() ==> order::lex_before(
                    (#[trigger] nv[i]).0,
                    (#[trigger] nv[j]).0,
                ),
        decreases names.len() - n,
    {
        assert(nv[n as int] == names[n as int]@);
        assert(nv[n - 1] == names[n - 1]@);
        if !order::is_lex_before(names[n - 1].name.as_slice(), names[n].name.as_slice()) {
            assert(!order::lex_before(nv[n - 1].0, nv[n as int].0));
            return false;
        }
        proof {
            assert forall|i: int, j: int|
                0 <= i < j < n + 1 && j < nv.len() implies order::lex_before(
                (#[trigger] nv[i]).0,
                (#[trigger] nv[j]).0,
            ) by {
                if j == n && i < n - 1 {
                    order::lemma_lex_transitive(nv[i].0, nv[n - 1].0, nv[j].0);
                }
            }
        }
        n += 1;
    }
    true
}

/// The export trie of the image. `None` when two exports have one name or
/// the trie may be too large.
pub open spec fn trie_of<E: Arch>(ctx: Context) -> Option<Seq<u8>> {
    let ids = super::symtab::globals_of(ctx.inputs);
    let names = exports_to::<E>(ctx, ids, ids.len() as int);
    let nodes = crate::output_chunks::export_trie::trie_of(names);
    if !crate::output_chunks::export_trie::names_increase(names) {
        None
    } else if names.len() > 0 && crate::output_chunks::export_trie::size_bound(
        nodes,
        nodes.len() as int,
    ) > u32::MAX {
        None
    } else {
        Some(crate::output_chunks::export_trie::export_trie(names))
    }
}

/// Builds the export trie: the exported symbols that the export lists let
/// out, with their addresses, or the libraries that they come from.
pub fn build_export_trie<E: Arch>(ctx: &Context) -> (r: Option<Vec<u8>>)
    requires
        ctx.wf(),
        aliases_exist(*ctx),
    ensures
        match r {
            Some(v) => trie_of::<E>(*ctx) == Some(v@),
            None => trie_of::<E>(*ctx) is None,
        },
{
    let ids: Vec<u32> = super::symtab::sorted_globals(&ctx.inputs);
    let names: Vec<Exported> = list_exports::<E>(ctx, &ids);
    assert(crate::output_chunks::export_trie::exported_views(names@).len() == names.len());
    if !check_increasing(&names) {
        return None;
    }
    encode_export_trie(&names)
}

/// The unwind entry of a record, with final addresses. A record made from
/// DWARF unwind information holds the place of its FDE.
pub open spec fn entry_of<E: Arch>(ctx: Context, r: UnwindRecord) -> UnwindEntry {
    UnwindEntry {
        addr: bytes::word64(ctx.addr_of_isec(r.isec as int) + r.input_offset),
        code_len: r.code_len,
        encoding: match r.fde {
            Some(f) => E::info().unwind_mode_dwarf | (ctx.inputs.fdes[f as int].output_offset
                & 0xff_ffff),
            None => r.encoding,
        },
        personality: r.personality,
        lsda: match r.lsda {
            Some(l) => Some(bytes::word64(ctx.addr_of_isec(l.0 as int) + l.1)),
            None => None,
        },
    }
}

/// True when a record's function is in the output.
pub open spec fn is_in_output(ctx: Context, r: UnwindRecord) -> bool {
    let s = ctx.inputs.isecs[r.isec as int];
    s.is_alive && s.replacement == NO_REPLACEMENT
}

/// The unwind entries of the first `n` records.
pub open spec fn unwind_to<E: Arch>(ctx: Context, n: int) -> Seq<UnwindEntry>
    decreases n,
{
    if n <= 0 {
        Seq::empty()
    } else {
        let r = ctx.inputs.unwind_records[n - 1];
        if is_in_output(ctx, r) {
            unwind_to::<E>(ctx, n - 1).push(entry_of::<E>(ctx, r))
        } else {
            unwind_to::<E>(ctx, n - 1)
        }
    }
}

/// Lists the unwind entries of the functions in the output.
pub fn list_unwind_entries<E: Arch>(ctx: &Context) -> (r: Vec<UnwindEntry>)
    requires
        ctx.wf(),
        ctx.inputs.fdes_exist(),
    ensures
        r@ == unwind_to::<E>(*ctx, ctx.inputs.unwind_records.len() as int),
{
    let mut r: Vec<UnwindEntry> = Vec::new();
    let mut n: usize = 0;
    while n < ctx.inputs.unwind_records.len()
        invariant
            n <= ctx.inputs.unwind_records.len(),
            ctx.wf(),
            ctx.inputs.fdes_exist(),
            r@ == unwind_to::<E>(*ctx, n as int),
        decreases ctx.inputs.unwind_records.len() - n,
    {
        let rec: &UnwindRecord = &ctx.inputs.unwind_records[n];
        assert(ctx.inputs.record_ok(*rec));
        let s: &InputSection = &ctx.inputs.isecs[rec.isec];
        if s.is_alive && s.replacement == NO_REPLACEMENT {
            let encoding: u32 = match rec.fde {
                Some(f) => E::get_info().unwind_mode_dwarf | (ctx.inputs.fdes[f].output_offset
                    & 0xff_ffff),
                None => rec.encoding,
            };
            let lsda: Option<u64> = match rec.lsda {
                Some(l) => Some(bytes::sum64(ctx.isec_addr(l.0), l.1 as u64)),
                None => None,
            };
            let addr: u64 = bytes::sum64(ctx.isec_addr(rec.isec), rec.input_offset as u64);
            r.push(
                UnwindEntry {
                    addr,
                    code_len: rec.code_len,
                    encoding,
                    personality: rec.personality,
                    lsda,
                },
            );
        }
        n += 1;
    }
    r
}

/// Builds __unwind_info, and lists the personality functions that it
/// refers to.
pub fn build_unwind_info<E: Arch>(ctx: &Context) -> (r: Result<(Vec<u8>, Vec<u32>), EncodeError>)
    requires
        ctx.wf(),
        ctx.inputs.fdes_exist(),
    ensures
        ({
            let want = crate::output_chunks::unwind_info::unwind_info(
                unwind_to::<E>(*ctx, ctx.inputs.unwind_records.len() as int),
                ctx.args.sw.pagezero_size,
            );
            match r {
                Ok((buf, pers)) => want == Ok::<(Seq<u8>, Seq<u32>), EncodeError>((buf@, pers@)),
                Err(e) => want == Err::<(Seq<u8>, Seq<u32>), EncodeError>(e),
            }
        }),
{
    let entries: Vec<UnwindEntry> = list_unwind_entries::<E>(ctx);
    encode_unwind_info(&entries, ctx.args.sw.pagezero_size)
}

/// The ordinal of the section that a subsection is in, 0 without one.
pub open spec fn sect_of(ords: Seq<u8>, s: InputSection) -> u8 {
    if s.osec == UNSET {
        0
    } else {
        ords[s.osec as int]
    }
}

/// How a reference is adjusted when segments slide. `None` for one that
/// needs no adjustment.
pub open spec fn adjust_kind(rel: Reloc, same_sect: bool) -> Option<u8> {
    let t = rel.r_type;
    if t == ARM64_RELOC_UNSIGNED {
        Some(
            if rel.size == 8 {
                DYLD_CACHE_ADJ_V2_POINTER_64
            } else {
                DYLD_CACHE_ADJ_V2_POINTER_32
            },
        )
    } else if same_sect {
        None
    } else if t == ARM64_RELOC_PAGE21 || t == ARM64_RELOC_GOT_LOAD_PAGE21 {
        Some(DYLD_CACHE_ADJ_V2_ARM64_ADRP)
    } else if t == ARM64_RELOC_PAGEOFF12 || t == ARM64_RELOC_GOT_LOAD_PAGEOFF12 {
        Some(DYLD_CACHE_ADJ_V2_ARM64_OFF12)
    } else if t == ARM64_RELOC_BRANCH26 {
        Some(DYLD_CACHE_ADJ_V2_ARM64_BR26)
    } else {
        None
    }
}

fn find_adjust_kind(rel: &Reloc, same_sect: bool) -> (r: Option<u8>)
    ensures
        r == adjust_kind(*rel, same_sect),
{
    let t: u8 = rel.r_type;
    if t == ARM64_RELOC_UNSIGNED {
        if rel.size == 8 {
            Some(DYLD_CACHE_ADJ_V2_POINTER_64)
        } else {
            Some(DYLD_CACHE_ADJ_V2_POINTER_32)
        }
    } else if same_sect {
        None
    } else if t == ARM64_RELOC_PAGE21 || t == ARM64_RELOC_GOT_LOAD_PAGE21 {
        Some(DYLD_CACHE_ADJ_V2_ARM64_ADRP)
    } else if t == ARM64_RELOC_PAGEOFF12 || t == ARM64_RELOC_GOT_LOAD_PAGEOFF12 {
        Some(DYLD_CACHE_ADJ_V2_ARM64_OFF12)
    } else if t == ARM64_RELOC_BRANCH26 {
        Some(DYLD_CACHE_ADJ_V2_ARM64_BR26)
    } else {
        None
    }
}

/// The reference that a relocation makes to another section.
pub open spec fn split_entry(ctx: Context, ords: Seq<u8>, s: InputSection, rel: Reloc) -> Option<
    SplitEntry,
> {
    match ctx.inputs.target_isec(s.obj, rel) {
        None => None,
        Some(i) => {
            let t = ctx.inputs.isecs[crate::inputs::survivor(ctx.inputs.isecs@, i as int)];
            let value = match ctx.inputs.target_sym(s.obj, rel) {
                Some(id) => ctx.inputs.symtab.syms[id as int].value,
                None => 0,
            };
            let from_sect = sect_of(ords, s);
            let to_sect = sect_of(ords, t);
            match adjust_kind(rel, to_sect == from_sect) {
                None => None,
                Some(kind) => if to_sect == 0 {
                    None
                } else {
                    Some(
                        SplitEntry {
                            from_sect,
                            to_sect,
                            kind,
                            from_offset: bytes::word64(s.output_offset + rel.offset),
                            to_offset: bytes::word64(
                                t.output_offset + bytes::word64(value + rel.addend),
                            ),
                        },
                    )
                },
            }
        },
    }
}

/// The references of a subsection's first `n` relocations.
pub open spec fn rel_entries(ctx: Context, ords: Seq<u8>, s: InputSection, n: int) -> Seq<SplitEntry>
    decreases n,
{
    if n <= 0 {
        Seq::empty()
    } else {
        match split_entry(ctx, ords, s, s.relocs[n - 1]) {
            Some(e) => rel_entries(ctx, ords, s, n - 1).push(e),
            None => rel_entries(ctx, ords, s, n - 1),
        }
    }
}

/// The references of the first `n` subsections, as far as they are live and
/// in a section.
pub open spec fn split_entries(ctx: Context, ords: Seq<u8>, n: int) -> Seq<SplitEntry>
    decreases n,
{
    if n <= 0 {
        Seq::empty()
    } else {
        let s = ctx.inputs.isecs[n - 1];
        if s.is_alive && sect_of(ords, s) != 0 {
            split_entries(ctx, ords, n - 1) + rel_entries(ctx, ords, s, s.relocs.len() as int)
        } else {
            split_entries(ctx, ords, n - 1)
        }
    }
}

fn find_sect(ctx: &Context, ords: &Vec<u8>, id: usize) -> (r: u8)
    requires
        ctx.wf(),
        ords.len() == ctx.layout.chunks.len(),
        id < ctx.inputs.isecs.len(),
    ensures
        r == sect_of(ords@, ctx.inputs.isecs[id as int]),
{
    let osec: u32 = ctx.inputs.isecs[id].osec;
    if osec == UNSET {
        0
    } else {
        ords[osec as usize]
    }
}

fn find_split_entry(ctx: &Context, ords: &Vec<u8>, id: usize, k: usize) -> (r: Option<SplitEntry>)
    requires
        ctx.wf(),
        ords.len() == ctx.layout.chunks.len(),
        id < ctx.inputs.isecs.len(),
        k < ctx.inputs.isecs[id as int].relocs.len(),
    ensures
        r == split_entry(
            *ctx,
            ords@,
            ctx.inputs.isecs[id as int],
            ctx.inputs.isecs[id as int].relocs[k as int],
        ),
{
    proof {
        assert(ctx.inputs.isec_ok(ctx.inputs.isecs[id as int]));
        crate::inputs::lemma_wf_redirects(ctx.inputs);
    }
    let s: &InputSection = &ctx.inputs.isecs[id];
    let rel: &Reloc = &s.relocs[k];
    assert(ctx.inputs.reloc_ok(s.obj, *rel));
    match ctx.inputs.reloc_target_isec(s.obj, rel) {
        None => None,
        Some(i) => {
            let at: usize = resolve_isec(&ctx.inputs.isecs, i as usize);
            let value: u64 = match ctx.inputs.reloc_target_sym(s.obj, rel) {
                Some(sym) => ctx.inputs.symtab.syms[sym as usize].value,
                None => 0,
            };
            let from_sect: u8 = find_sect(ctx, ords, id);
            let to_sect: u8 = find_sect(ctx, ords, at);
            match find_adjust_kind(rel, to_sect == from_sect) {
                None => None,
                Some(kind) => {
                    if to_sect == 0 {
                        return None;
                    }
                    let from_offset: u64 = bytes::sum64(s.output_offset, rel.offset as u64);
                    let place: u64 = bytes::offset_by(value, rel.addend);
                    let to_offset: u64 = bytes::sum64(ctx.inputs.isecs[at].output_offset, place);
                    Some(SplitEntry { from_sect, to_sect, kind, from_offset, to_offset })
                },
            }
        },
    }
}

/// The table of references between sections, where it is asked for.
pub open spec fn split_info_of(ctx: Context, ords: Seq<u8>) -> Seq<u8> {
    if ctx.args.sw.split_seg_info {
        crate::chunks::split_info::split_info(
            split_entries(ctx, ords, ctx.inputs.isecs.len() as int),
        )
    } else {
        Seq::empty()
    }
}

/// Builds the table of references between sections, where it is asked for.
/// `ords` holds the section ordinal of each chunk.
pub fn build_split_info(ctx: &Context, ords: &Vec<u8>) -> (r: Vec<u8>)
    requires
        ctx.wf(),
        ords.len() == ctx.layout.chunks.len(),
    ensures
        r@ == split_info_of(*ctx, ords@),
{
    if !ctx.args.sw.split_seg_info {
        let none: Vec<u8> = Vec::new();
        assert(none@ =~= Seq::empty());
        return none;
    }
    let mut entries: Vec<SplitEntry> = Vec::new();
    let mut n: usize = 0;
    while n < ctx.inputs.isecs.len()
        invariant
            n <= ctx.inputs.isecs.len(),
            ctx.wf(),
            ords.len() == ctx.layout.chunks.len(),
            entries@ == split_entries(*ctx, ords@, n as int),
        decreases ctx.inputs.isecs.len() - n,
    {
        let s: &InputSection = &ctx.inputs.isecs[n];
        if s.is_alive && find_sect(ctx, ords, n) != 0 {
            let ghost start = entries@;
            assert(start + Seq::<SplitEntry>::empty() =~= start);
            let mut k: usize = 0;
            while k < s.relocs.len()
                invariant
                    k <= s.relocs.len(),
                    n < ctx.inputs.isecs.len(),
                    *s == ctx.inputs.isecs[n as int],
                    ctx.wf(),
                    ords.len() == ctx.layout.chunks.len(),
                    entries@ == start + rel_entries(*ctx, ords@, *s, k as int),
                decreases s.relocs.len() - k,
            {
                let ghost head = rel_entries(*ctx, ords@, *s, k as int);
                if let Some(e) = find_split_entry(ctx, ords, n, k) {
                    entries.push(e);
                    assert((start + head).push(e) =~= start + head.push(e));
                }
                k += 1;
            }
        }
        n += 1;
    }
    encode_split_info(&entries)
}

} // verus!
