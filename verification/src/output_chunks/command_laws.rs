//! What a reader of the image's header finds: commands whose size words lead
//! from one to the next, strings where the commands say, and flags that
//! mean what they say.
use super::load_commands::{
    binds_to_weak, dylib_cmds, dylib_cmds_to, dysymtab_cmd, has_tlv, header_flags, id_dylib_cmd,
    joined, linkedit_cmd, load_dylib_cmd, main_cmd, ordinal_keys, path_cmd, reexports, segment_cmd,
    string_cmd, weak_defines, Identity,
};
use crate::args::Args;
use crate::context::Context;
use crate::input_files::DylibFile;
use crate::output_chunks::header::{ChunkView, SegmentView};
use crate::util::{bytes, order};
use vstd::prelude::*;
use vstd::string::*;

verus! {

proof fn lemma_words_in_front(words: Seq<u32>, tail: Seq<u8>, i: int)
    requires
        0 <= i < words.len(),
    ensures
        bytes::u32_at(bytes::le32s(words) + tail, 4 * i) == words[i],
        bytes::le32s(words).len() == 4 * words.len(),
{
    reveal(bytes::u32_at);
    bytes::lemma_le32s_at(words, i);
    let w = bytes::le32s(words);
    assert(bytes::u32_at(w + tail, 4 * i) == bytes::u32_at(w, 4 * i));
}

proof fn lemma_quad_in(head: Seq<u8>, v: u64, tail: Seq<u8>)
    ensures
        bytes::u64_at(head + bytes::le64(v) + tail, head.len() as int) == v,
        bytes::le64(v).len() == 8,
{
    reveal(bytes::u32_at);
    reveal(bytes::u64_at);
    bytes::lemma_le64_round_trip(v);
    let n = head.len() as int;
    let s = head + bytes::le64(v) + tail;
    assert(bytes::u32_at(s, n) == bytes::u32_at(bytes::le64(v), 0));
    assert(bytes::u32_at(s, n + 4) == bytes::u32_at(bytes::le64(v), 4));
}

/// True for a command whose first word is its type and whose second word is
/// its size in bytes, a multiple of eight.
pub open spec fn is_command(cmd: Seq<u8>, kind: u32) -> bool {
    &&& cmd.len() >= 8
    &&& cmd.len() % 8 == 0
    &&& bytes::u32_at(cmd, 0) == kind
    &&& bytes::u32_at(cmd, 4) == cmd.len()
}

/// A command with a string is a command of its type. Its words stand behind
/// the first two, and the string behind them, with a zero byte at its end.
pub proof fn lemma_string_command(cmd: u32, rest: Seq<u32>, s: Seq<u8>)
    requires
        4 * rest.len() + s.len() + 16 <= u32::MAX,
    ensures
        is_command(string_cmd(cmd, rest, s), cmd),
        forall|i: int|
            0 <= i < rest.len() ==> bytes::u32_at(string_cmd(cmd, rest, s), 8 + 4 * i)
                == #[trigger] rest[i],
        bytes::occurs_at(string_cmd(cmd, rest, s), s.push(0), 8int + 4 * rest.len()),
        string_cmd(cmd, rest, s).len() < 8 + 4 * rest.len() + s.len() + 9,
{
    let n = 8int + 4 * rest.len() + s.len() + 1;
    let size = crate::util::aligned(n, 8);
    let words = seq![cmd, size as u32] + rest;
    let front = bytes::le32s(words);
    bytes::lemma_le32s_len(words);
    let body = front + s.push(0);
    let pad = bytes::zeros(bytes::pad8_len(body.len() as int));
    let all = string_cmd(cmd, rest, s);
    assert(all == body + pad);
    assert(all =~= front + (s.push(0) + pad));
    assert(all.len() == size && size % 8 == 0);
    lemma_words_in_front(words, s.push(0) + pad, 0);
    lemma_words_in_front(words, s.push(0) + pad, 1);
    assert forall|i: int| 0 <= i < rest.len() implies bytes::u32_at(all, 8 + 4 * i)
        == #[trigger] rest[i] by {
        lemma_words_in_front(words, s.push(0) + pad, i + 2);
        assert(words[i + 2] == rest[i]);
    }
    let at = 8int + 4 * rest.len();
    assert(all.subrange(at, at + s.push(0).len()) =~= s.push(0));
}

/// A library's command tells how it is loaded: 0x8000_001f re-exports it,
/// 0x8000_0018 allows it to be missing, and 0xc is for the others. The
/// library's name stands where the word at 8 says, and its versions at 16
/// and 20.
pub proof fn lemma_library_command(d: DylibFile)
    requires
        d.install_name.len() + 32 <= u32::MAX,
    ensures
        ({
            let c = load_dylib_cmd(d);
            &&& is_command(
                c,
                if d.is_reexported {
                    0x8000_001f
                } else if d.is_weak {
                    0x8000_0018
                } else {
                    0xc
                },
            )
            &&& bytes::occurs_at(c, d.install_name@.push(0), bytes::u32_at(c, 8) as int)
            &&& bytes::u32_at(c, 8) >= 24
            &&& bytes::u32_at(c, 16) == d.current_version
            &&& bytes::u32_at(c, 20) == d.compatibility_version
        }),
{
    let rest = seq![24u32, 2u32, d.current_version, d.compatibility_version];
    assert(0x1fu32 | 0x8000_0000u32 == 0x8000_001f && 0x18u32 | 0x8000_0000u32 == 0x8000_0018) by (
    bit_vector);
    let cmd = if d.is_reexported {
        0x8000_001fu32
    } else if d.is_weak {
        0x8000_0018
    } else {
        0xc
    };
    lemma_string_command(cmd, rest, d.install_name@);
    let c = string_cmd(cmd, rest, d.install_name@);
    assert(load_dylib_cmd(d) == c);
    assert(bytes::u32_at(c, 8 + 4 * 0int) == rest[0]);
    assert(bytes::u32_at(c, 8 + 4 * 2int) == rest[2]);
    assert(bytes::u32_at(c, 8 + 4 * 3int) == rest[3]);
}

/// A library's own identity: its name is the install name if one is given,
/// else that of the final output, else that of the output.
pub proof fn lemma_identity_command(args: Args)
    requires
        super::load_commands::identity_name(args).len() + 32 <= u32::MAX,
    ensures
        ({
            let c = id_dylib_cmd(args);
            let at = bytes::u32_at(c, 8) as int;
            &&& is_command(c, 0xd)
            &&& args.install_name matches Some(n) ==> bytes::occurs_at(c, n@.push(0), at)
            &&& args.install_name is None ==> (args.final_output matches Some(n)
                ==> bytes::occurs_at(c, n@.push(0), at))
            &&& args.install_name is None && args.final_output is None ==> bytes::occurs_at(
                c,
                args.output@.push(0),
                at,
            )
            &&& bytes::u32_at(c, 16) == args.sw.current_version
            &&& bytes::u32_at(c, 20) == args.sw.compatibility_version
        }),
{
    let rest = seq![24u32, 0u32, args.sw.current_version, args.sw.compatibility_version];
    let name = super::load_commands::identity_name(args);
    lemma_string_command(0xd, rest, name);
    let c = string_cmd(0xd, rest, name);
    assert(bytes::u32_at(c, 8 + 4 * 0int) == rest[0]);
    assert(bytes::u32_at(c, 8 + 4 * 2int) == rest[2]);
    assert(bytes::u32_at(c, 8 + 4 * 3int) == rest[3]);
}

/// A path command holds its path where the word at 8 says.
pub proof fn lemma_path_command(cmd: u32, path: Seq<u8>)
    requires
        path.len() + 32 <= u32::MAX,
    ensures
        is_command(path_cmd(cmd, path), cmd),
        bytes::occurs_at(
            path_cmd(cmd, path),
            path.push(0),
            bytes::u32_at(path_cmd(cmd, path), 8) as int,
        ),
{
    let rest = seq![12u32];
    lemma_string_command(cmd, rest, path);
    assert(bytes::u32_at(path_cmd(cmd, path), 8 + 4 * 0int) == rest[0]);
}

/// The entry point is counted from the start of __TEXT.
pub proof fn lemma_entry_command(args: Args, entry: u64, text: u64)
    requires
        text <= entry,
    ensures
        is_command(main_cmd(args, entry, text), 0x8000_0028),
        text + bytes::u64_at(main_cmd(args, entry, text), 8) == entry,
        bytes::u64_at(main_cmd(args, entry, text), 16) == args.sw.stack_size,
{
    assert(0x28u32 | 0x8000_0000u32 == 0x8000_0028) by (bit_vector);
    let words = seq![0x8000_0028u32, 24u32];
    let front = bytes::le32s(words);
    let off = bytes::word64(entry - text);
    assert(off == entry - text) by {
        reveal(bytes::word64);
    }
    let c = main_cmd(args, entry, text);
    let tail = bytes::le64(off) + bytes::le64(args.sw.stack_size);
    lemma_quad_in(front, off, bytes::le64(args.sw.stack_size));
    assert(c =~= front + tail);
    lemma_words_in_front(words, tail, 0);
    lemma_words_in_front(words, tail, 1);
    lemma_quad_in(front + bytes::le64(off), args.sw.stack_size, Seq::empty());
    assert(c =~= front + bytes::le64(off) + bytes::le64(args.sw.stack_size) + Seq::empty());
}

/// A command of a table in __LINKEDIT gives the table's place and size.
pub proof fn lemma_table_command(cmd: u32, e: (u64, u64))
    requires
        e.0 <= u32::MAX,
        e.1 <= u32::MAX,
    ensures
        is_command(linkedit_cmd(cmd, e), cmd),
        bytes::u32_at(linkedit_cmd(cmd, e), 8) == e.0,
        bytes::u32_at(linkedit_cmd(cmd, e), 12) == e.1,
{
    let words = seq![cmd, 16u32, e.0 as u32, e.1 as u32];
    bytes::lemma_le32s_at(words, 0);
    bytes::lemma_le32s_at(words, 1);
    bytes::lemma_le32s_at(words, 2);
    bytes::lemma_le32s_at(words, 3);
}

/// The three parts of the symbol table lie one behind the other: the locals
/// from the start, the definitions behind them, and the undefined symbols
/// behind these.
pub proof fn lemma_symbol_parts(chunks: Seq<ChunkView>, id: Identity)
    requires
        id.nlocal + id.nextdef + id.nundef <= u32::MAX,
    ensures
        ({
            let c = dysymtab_cmd(chunks, id);
            &&& is_command(c, 0xb)
            &&& bytes::u32_at(c, 8) == 0
            &&& bytes::u32_at(c, 12) == id.nlocal
            &&& bytes::u32_at(c, 16) == bytes::u32_at(c, 8) + bytes::u32_at(c, 12)
            &&& bytes::u32_at(c, 20) == id.nextdef
            &&& bytes::u32_at(c, 24) == bytes::u32_at(c, 16) + bytes::u32_at(c, 20)
            &&& bytes::u32_at(c, 28) == id.nundef
        }),
{
    assert(bytes::word32(id.nlocal + id.nextdef) == id.nlocal + id.nextdef) by {
        reveal(bytes::word32);
    }
    let ind = super::load_commands::extent_or_zero(
        super::load_commands::extent_of(chunks, super::header::ChunkKind::IndirectSymtab),
    );
    let words = seq![
        0xbu32,
        80u32,
        0u32,
        id.nlocal,
        id.nlocal,
        id.nextdef,
        bytes::word32(id.nlocal + id.nextdef),
        id.nundef,
        0u32,
        0u32,
        0u32,
        0u32,
        0u32,
        0u32,
        ind.0 as u32,
        (ind.1 / 4) as u32,
        0u32,
        0u32,
        0u32,
        0u32,
    ];
    assert(dysymtab_cmd(chunks, id) == bytes::le32s(words));
    bytes::lemma_le32s_at(words, 0);
    bytes::lemma_le32s_at(words, 1);
    bytes::lemma_le32s_at(words, 2);
    bytes::lemma_le32s_at(words, 3);
    bytes::lemma_le32s_at(words, 4);
    bytes::lemma_le32s_at(words, 5);
    bytes::lemma_le32s_at(words, 6);
    bytes::lemma_le32s_at(words, 7);
}

/// Where command `k` starts among the joined ones.
pub open spec fn start_of(cmds: Seq<Seq<u8>>, k: int) -> int
    decreases k,
{
    if k <= 0 {
        0
    } else {
        start_of(cmds, k - 1) + cmds[k - 1].len()
    }
}

/// The commands follow one another without a gap: command `k` stands behind
/// all that come before it.
pub proof fn lemma_commands_follow(cmds: Seq<Seq<u8>>, n: int, k: int)
    requires
        0 <= k < n <= cmds.len(),
    ensures
        joined(cmds, n).len() == start_of(cmds, n),
        start_of(cmds, k) + cmds[k].len() <= joined(cmds, n).len(),
        joined(cmds, n).subrange(start_of(cmds, k), start_of(cmds, k) + cmds[k].len()) == cmds[k],
    decreases n,
{
    lemma_joined_len(cmds, n - 1);
    lemma_joined_len(cmds, n);
    lemma_joined_len(cmds, k);
    let before = joined(cmds, n - 1);
    let all = joined(cmds, n);
    let at = start_of(cmds, k);
    let end = at + cmds[k].len();
    if k < n - 1 {
        lemma_commands_follow(cmds, n - 1, k);
        assert(all.subrange(at, end) =~= before.subrange(at, end));
    } else {
        assert(all.subrange(at, end) =~= cmds[k]);
    }
}

proof fn lemma_joined_len(cmds: Seq<Seq<u8>>, n: int)
    requires
        0 <= n,
    ensures
        joined(cmds, n).len() == start_of(cmds, n),
        start_of(cmds, n) >= 0,
    decreases n,
{
    if n > 0 {
        lemma_joined_len(cmds, n - 1);
    }
}

/// Each flag of the header is set exactly if it applies: 0x80 for two-level
/// lookup, 0x20_0000 for a program that can be loaded anywhere, 0x10_0000
/// for a library that re-exports none, 0x40_0000 for one that may be left
/// out, 0x1_0000 and 0x8000 for uses and definitions of weak symbols,
/// 0x200_0000 for application extensions, and 0x80_0000 for thread-local
/// variables. 0x1 and 0x4 are always set.
pub proof fn lemma_header_flags(ctx: Context, imports: Seq<(u64, u64, u64)>)
    ensures
        ({
            let f = header_flags(ctx, imports);
            let t = ctx.args.sw.output_type;
            let chunks = super::header::chunk_views(ctx.layout.chunks@);
            &&& f & 0x5 == 0x5
            &&& (f & 0x80 != 0) == !ctx.args.sw.flat_namespace
            &&& (f & 0x20_0000 != 0) == (t == 2)
            &&& (f & 0x10_0000 != 0) == (t == 6 && forall|i: int|
                0 <= i < ctx.dylibs.len() ==> !(#[trigger] ctx.dylibs[i]).is_reexported)
            &&& (f & 0x40_0000 != 0) == (t == 6 && ctx.args.sw.mark_dead_strippable_dylib)
            &&& (f & 0x1_0000 != 0) == binds_to_weak(ctx, imports)
            &&& (f & 0x8000 != 0) == weak_defines(ctx)
            &&& (f & 0x200_0000 != 0) == ctx.args.sw.application_extension
            &&& (f & 0x80_0000 != 0) == has_tlv(chunks)
        }),
{
    let t = ctx.args.sw.output_type;
    let chunks = super::header::chunk_views(ctx.layout.chunks@);
    assert(reexports(ctx.dylibs@) == !(forall|i: int|
        0 <= i < ctx.dylibs.len() ==> !(#[trigger] ctx.dylibs[i]).is_reexported)) by {
        if exists|i: int| 0 <= i < ctx.dylibs.len() && (#[trigger] ctx.dylibs[i]).is_reexported {
            let i = choose|i: int|
                0 <= i < ctx.dylibs.len() && (#[trigger] ctx.dylibs[i]).is_reexported;
            assert(ctx.dylibs@[i].is_reexported);
        }
    }
    let two = !ctx.args.sw.flat_namespace;
    let pie = t == 2;
    let none = t == 6 && !reexports(ctx.dylibs@);
    let dead = t == 6 && ctx.args.sw.mark_dead_strippable_dylib;
    let binds = binds_to_weak(ctx, imports);
    let weak = weak_defines(ctx);
    let app = ctx.args.sw.application_extension;
    let tlv = has_tlv(chunks);
    let f = header_flags(ctx, imports);
    let a = super::load_commands::flag_if(two, 0x80);
    let b = super::load_commands::flag_if(pie, 0x20_0000);
    let c = super::load_commands::flag_if(none, 0x10_0000);
    let d = super::load_commands::flag_if(dead, 0x40_0000);
    let e = super::load_commands::flag_if(binds, 0x1_0000);
    let g = super::load_commands::flag_if(weak, 0x8000);
    let h = super::load_commands::flag_if(app, 0x200_0000);
    let i = super::load_commands::flag_if(tlv, 0x80_0000);
    assert(f == 0x1u32 | 0x4u32 | a | b | c | d | e | g | h | i);
    assert(f & 0x5 == 0x5 && (f & 0x80 != 0) == (a != 0) && (f & 0x20_0000 != 0) == (b != 0) && (f
        & 0x10_0000 != 0) == (c != 0) && (f & 0x40_0000 != 0) == (d != 0) && (f & 0x1_0000 != 0)
        == (e != 0) && (f & 0x8000 != 0) == (g != 0) && (f & 0x200_0000 != 0) == (h != 0) && (f
        & 0x80_0000 != 0) == (i != 0)) by (bit_vector)
        requires
            f == 0x1u32 | 0x4u32 | a | b | c | d | e | g | h | i,
            a == 0 || a == 0x80,
            b == 0 || b == 0x20_0000,
            c == 0 || c == 0x10_0000,
            d == 0 || d == 0x40_0000,
            e == 0 || e == 0x1_0000,
            g == 0 || g == 0x8000,
            h == 0 || h == 0x200_0000,
            i == 0 || i == 0x80_0000,
    ;
}

proof fn lemma_cmds_to(dylibs: Seq<DylibFile>, ord: Seq<usize>, n: int)
    requires
        0 <= n <= ord.len(),
        forall|i: int| 0 <= i < ord.len() ==> !dylibs[(#[trigger] ord[i]) as int].is_bundle_loader,
    ensures
        dylib_cmds_to(dylibs, ord, n).len() == n,
        forall|i: int|
            0 <= i < n ==> #[trigger] dylib_cmds_to(dylibs, ord, n)[i] == load_dylib_cmd(
                dylibs[ord[i] as int],
            ),
    decreases n,
{
    if n > 0 {
        lemma_cmds_to(dylibs, ord, n - 1);
        assert(!dylibs[ord[n - 1] as int].is_bundle_loader);
    }
}

/// The libraries' commands stand in the order of their ordinals: if these
/// count from 1 without a gap, the library with ordinal `k` has the `k`th
/// command, which is how dyld finds it.
pub proof fn lemma_ordinals_find_libraries(dylibs: Seq<DylibFile>, d: int)
    requires
        dylibs.len() <= 0x7fff_ffff,
        0 <= d < dylibs.len(),
        forall|i: int|
            0 <= i < dylibs.len() ==> 1 <= (#[trigger] dylibs[i]).dylib_idx <= dylibs.len()
                && !dylibs[i].is_bundle_loader,
        forall|i: int, j: int|
            0 <= i < j < dylibs.len() ==> (#[trigger] dylibs[i]).dylib_idx != (
            #[trigger] dylibs[j]).dylib_idx,
    ensures
        dylib_cmds(dylibs).len() == dylibs.len(),
        dylib_cmds(dylibs)[dylibs[d].dylib_idx - 1] == load_dylib_cmd(dylibs[d]),
{
    let keys = ordinal_keys(dylibs);
    order::lemma_stable_order_exists(keys);
    let ord = order::stable_order_of(keys);
    assert forall|i: int| 0 <= i < ord.len() implies !dylibs[(
    #[trigger] ord[i]) as int].is_bundle_loader by {
        assert(0 <= ord[i] < dylibs.len());
    }
    lemma_cmds_to(dylibs, ord, ord.len() as int);
    assert(ord.contains(d as usize));
    let k = ord.index_of(d as usize);
    lemma_rank_is_ordinal(dylibs, ord, k);
}

/// In a sorted list without repeats, whose values are those from 1 to its
/// length, the value at `k` is `k + 1`.
proof fn lemma_rank_is_ordinal(dylibs: Seq<DylibFile>, ord: Seq<usize>, k: int)
    requires
        dylibs.len() <= 0x7fff_ffff,
        order::is_stable_order(ordinal_keys(dylibs), ord),
        0 <= k < ord.len(),
        forall|i: int|
            0 <= i < dylibs.len() ==> 1 <= (#[trigger] dylibs[i]).dylib_idx <= dylibs.len(),
        forall|i: int, j: int|
            0 <= i < j < dylibs.len() ==> (#[trigger] dylibs[i]).dylib_idx != (
            #[trigger] dylibs[j]).dylib_idx,
    ensures
        dylibs[ord[k] as int].dylib_idx == k + 1,
{
    let keys = ordinal_keys(dylibs);
    assert forall|i: int, j: int| 0 <= i < j < ord.len() implies dylibs[(
    #[trigger] ord[i]) as int].dylib_idx < dylibs[(#[trigger] ord[j]) as int].dylib_idx by {
        let a = ord[i] as int;
        let b = ord[j] as int;
        assert(order::item_before(keys, a, b));
        assert(a < dylibs.len() && b < dylibs.len());
        if a == b {
            order::lemma_item_before_asymmetric(keys, a, b);
        } else if a < b {
            assert(dylibs[a].dylib_idx != dylibs[b].dylib_idx);
        } else {
            assert(dylibs[b].dylib_idx != dylibs[a].dylib_idx);
        }
        assert(keys[a] == dylibs[a].dylib_idx + 0x8000_0000);
        assert(keys[b] == dylibs[b].dylib_idx + 0x8000_0000);
    }
    lemma_at_least(dylibs, ord, k);
    lemma_at_most(dylibs, ord, k);
}

proof fn lemma_at_least(dylibs: Seq<DylibFile>, ord: Seq<usize>, k: int)
    requires
        0 <= k < ord.len(),
        forall|i: int| 0 <= i < ord.len() ==> 1 <= dylibs[(#[trigger] ord[i]) as int].dylib_idx,
        forall|i: int, j: int|
            0 <= i < j < ord.len() ==> dylibs[(#[trigger] ord[i]) as int].dylib_idx < dylibs[(
            #[trigger] ord[j]) as int].dylib_idx,
    ensures
        dylibs[ord[k] as int].dylib_idx >= k + 1,
    decreases k,
{
    if k > 0 {
        lemma_at_least(dylibs, ord, k - 1);
        assert(dylibs[ord[k - 1] as int].dylib_idx < dylibs[ord[k] as int].dylib_idx);
    }
}

proof fn lemma_at_most(dylibs: Seq<DylibFile>, ord: Seq<usize>, k: int)
    requires
        0 <= k < ord.len() == dylibs.len(),
        forall|i: int|
            0 <= i < ord.len() ==> dylibs[(#[trigger] ord[i]) as int].dylib_idx <= dylibs.len(),
        forall|i: int, j: int|
            0 <= i < j < ord.len() ==> dylibs[(#[trigger] ord[i]) as int].dylib_idx < dylibs[(
            #[trigger] ord[j]) as int].dylib_idx,
    ensures
        dylibs[ord[k] as int].dylib_idx <= k + 1,
    decreases ord.len() - k,
{
    if k < ord.len() - 1 {
        lemma_at_most(dylibs, ord, k + 1);
        assert(dylibs[ord[k] as int].dylib_idx < dylibs[ord[k + 1] as int].dylib_idx);
    }
}

/// A segment's command is followed by the records of its sections: its size
/// is that of both, and it counts them.
#[verifier::spinoff_prover]
#[verifier::rlimit(60)]
pub proof fn lemma_segment_command(chunks: Seq<ChunkView>, seg: SegmentView)
    requires
        72 + 80 * super::load_commands::section_count(
            chunks,
            seg.chunks,
            seg.chunks.len() as int,
        ) <= u32::MAX,
    ensures
        ({
            let c = segment_cmd(chunks, seg);
            let n = seg.chunks.filter(|k: usize| chunks[k as int].hdr.is_sect).len();
            &&& is_command(c, 0x19)
            &&& c.len() == 72 + 80 * n
            &&& bytes::u32_at(c, 64) == n
            &&& bytes::u64_at(c, 24) == seg.cmd.vmaddr
            &&& bytes::u64_at(c, 32) == seg.cmd.vmsize
            &&& bytes::u64_at(c, 40) == seg.cmd.fileoff
            &&& bytes::u64_at(c, 48) == seg.cmd.filesize
        }),
{
    let n = super::load_commands::section_count(chunks, seg.chunks, seg.chunks.len() as int);
    lemma_sections(chunks, seg.chunks, seg.name, seg.chunks.len() as int);
    assert(seg.chunks.take(seg.chunks.len() as int) =~= seg.chunks);
    let records = super::load_commands::section_records(
        chunks,
        seg.chunks,
        seg.name,
        seg.chunks.len() as int,
    );
    let first = seq![0x19u32, (72 + 80 * n) as u32];
    let prot = super::header::prot_of(seg.name);
    let flags = if seg.name == "__DATA_CONST".spec_bytes() {
        super::load_commands::SG_READ_ONLY
    } else {
        0
    };
    let last = seq![prot, prot, n as u32, flags];
    let a = bytes::le32s(first);
    let name = crate::macho::name16(seg.name);
    let l = bytes::le32s(last);
    bytes::lemma_le32s_len(first);
    bytes::lemma_le32s_len(last);
    assert(name.len() == 16);
    let c = segment_cmd(chunks, seg);
    let p = a + name;
    let v = bytes::le64(seg.cmd.vmaddr);
    let w = bytes::le64(seg.cmd.vmsize);
    let x = bytes::le64(seg.cmd.fileoff);
    let y = bytes::le64(seg.cmd.filesize);
    assert(c == p + v + w + x + y + l + records);
    assert(c =~= a + (name + v + w + x + y + l + records));
    lemma_words_in_front(first, name + v + w + x + y + l + records, 0);
    lemma_words_in_front(first, name + v + w + x + y + l + records, 1);
    lemma_quad_in(p, seg.cmd.vmaddr, w + x + y + l + records);
    assert(c =~= p + v + (w + x + y + l + records));
    lemma_quad_in(p + v, seg.cmd.vmsize, x + y + l + records);
    assert(c =~= p + v + w + (x + y + l + records));
    lemma_quad_in(p + v + w, seg.cmd.fileoff, y + l + records);
    assert(c =~= p + v + w + x + (y + l + records));
    lemma_quad_in(p + v + w + x, seg.cmd.filesize, l + records);
    assert(c =~= p + v + w + x + y + (l + records));
    lemma_words_in_front(last, records, 2);
    let t = l + records;
    assert(bytes::u32_at(c, 64) == bytes::u32_at(t, 8)) by {
        reveal(bytes::u32_at);
    }
}

proof fn lemma_sections(chunks: Seq<ChunkView>, list: Seq<usize>, segname: Seq<u8>, n: int)
    requires
        0 <= n <= list.len(),
    ensures
        super::load_commands::section_count(chunks, list, n) == list.take(n).filter(
            |k: usize| chunks[k as int].hdr.is_sect,
        ).len(),
        super::load_commands::section_records(chunks, list, segname, n).len() == 80
            * super::load_commands::section_count(chunks, list, n),
    decreases n,
{
    reveal(Seq::filter);
    if n > 0 {
        lemma_sections(chunks, list, segname, n - 1);
        assert(list.take(n).drop_last() =~= list.take(n - 1));
        let h = chunks[list[n - 1] as int].hdr;
        let r = super::load_commands::section_record(h, segname);
        bytes::lemma_le32s_len(
            seq![
                r.offset,
                r.p2align,
                r.reloff,
                r.nreloc,
                r.flags,
                r.reserved1,
                r.reserved2,
                r.reserved3,
            ],
        );
    }
}

/// Nothing can be both written and executed: of the segments only __TEXT is
/// executable, and __TEXT, __LINKEDIT and __PAGEZERO are not writable. All
/// but __PAGEZERO are readable.
pub proof fn lemma_protection(name: Seq<u8>)
    ensures
        ({
            let p = super::header::prot_of(name);
            let text = name == "__TEXT".spec_bytes();
            let zero = name == "__PAGEZERO".spec_bytes();
            let linkedit = name == "__LINKEDIT".spec_bytes();
            &&& (p & 4 != 0) ==> text && p & 2 == 0
            &&& (p & 2 != 0) == !(text || zero || linkedit)
            &&& (p & 1 == 0) == zero
            &&& zero ==> p == 0
            &&& text && !zero ==> p & 4 != 0
        }),
{
    assert(1u32 | 4u32 == 5 && 1u32 | 2u32 == 3 && 5u32 & 4 != 0 && 5u32 & 2 == 0 && 5u32 & 1 != 0
        && 3u32 & 4 == 0 && 3u32 & 2 != 0 && 3u32 & 1 != 0 && 1u32 & 4 == 0 && 1u32 & 2 == 0 && 1u32
        & 1 != 0 && 0u32 & 4 == 0 && 0u32 & 2 == 0 && 0u32 & 1 == 0) by (bit_vector);
}

} // verus!
