//! A library's own load commands, as an output carries them, read back.
use super::dylib::{command_name, dylib_step, loader_rpath, DylibCommandsView};
use super::DylibFile;
use crate::args::Args;
use crate::output_chunks::command_laws::{
    is_command, lemma_identity_command, lemma_library_command, lemma_path_command,
};
use crate::output_chunks::load_commands::{
    id_dylib_cmd, identity_name, load_dylib_cmd, path_cmd,
};
use crate::util::{bytes, text};
use vstd::prelude::*;

verus! {

/// True when a command stands at an offset of a file.
pub open spec fn stands_at(data: Seq<u8>, off: int, c: Seq<u8>) -> bool {
    0 <= off && off + c.len() <= data.len() && data.subrange(off, off + c.len()) == c
}

/// True for a name without a zero byte.
pub open spec fn has_no_nul(s: Seq<u8>) -> bool {
    forall|k: int| 0 <= k < s.len() ==> #[trigger] s[k] != 0
}

proof fn lemma_nul(s: Seq<u8>, name: Seq<u8>, from: int)
    requires
        0 <= from <= name.len() < s.len(),
        has_no_nul(name),
        forall|k: int| 0 <= k < name.len() ==> s[k] == #[trigger] name[k],
        s[name.len() as int] == 0,
    ensures
        bytes::index_of_byte(s, 0, from) == name.len(),
    decreases name.len() - from,
{
    if from < name.len() {
        assert(name[from] != 0);
        lemma_nul(s, name, from + 1);
    }
}

proof fn lemma_word(data: Seq<u8>, off: int, c: Seq<u8>, k: int)
    requires
        stands_at(data, off, c),
        0 <= k,
        k + 4 <= c.len(),
    ensures
        bytes::u32_at(data, off + k) == bytes::u32_at(c, k),
{
    reveal(bytes::u32_at);
    assert forall|j: int| 0 <= j < 4 implies data[off + k + j] == #[trigger] c[k + j] by {
        assert(data.subrange(off, off + c.len())[k + j] == c[k + j]);
    }
    assert(c[k + 0] == data[off + k + 0]);
    assert(c[k + 1] == data[off + k + 1]);
    assert(c[k + 2] == data[off + k + 2]);
    assert(c[k + 3] == data[off + k + 3]);
}

/// A name in a command reads back, whatever follows its zero byte.
proof fn lemma_name(data: Seq<u8>, off: int, c: Seq<u8>, cmd: u32, name: Seq<u8>)
    requires
        stands_at(data, off, c),
        is_command(c, cmd),
        c.len() >= 12,
        bytes::occurs_at(c, name.push(0), bytes::u32_at(c, 8) as int),
        has_no_nul(name),
    ensures
        command_name(data, off) == Some(text::lossy(name)),
        bytes::u32_at(data, off) == cmd,
{
    lemma_word(data, off, c, 0);
    lemma_word(data, off, c, 4);
    lemma_word(data, off, c, 8);
    let at = bytes::u32_at(c, 8) as int;
    let s = data.subrange(off + at, off + c.len());
    let found = c.subrange(at, at + name.push(0).len());
    assert(found == name.push(0));
    assert forall|k: int| 0 <= k <= name.len() implies s[k] == #[trigger] name.push(0)[k] by {
        assert(found[k] == c[at + k]);
        assert(data.subrange(off, off + c.len())[at + k] == c[at + k]);
    }
    assert forall|k: int| 0 <= k < name.len() implies s[k] == #[trigger] name[k] by {
        assert(name.push(0)[k] == name[k]);
    }
    assert(name.push(0)[name.len() as int] == 0);
    lemma_nul(s, name, 0);
    assert(s.take(name.len() as int) =~= name);
}

/// The identity that an output carries is what reading it as a library
/// finds: its name and its versions.
pub proof fn lemma_identity_reads_back(
    args: Args,
    data: Seq<u8>,
    off: int,
    dir: Seq<u8>,
    acc: DylibCommandsView,
)
    requires
        identity_name(args).len() + 32 <= u32::MAX,
        has_no_nul(identity_name(args)),
        stands_at(data, off, id_dylib_cmd(args)),
    ensures
        dylib_step(data, off, dir, acc) == Some(
            DylibCommandsView {
                install_name: text::lossy(identity_name(args)),
                current_version: args.sw.current_version,
                compatibility_version: args.sw.compatibility_version,
                ..acc
            },
        ),
{
    let c = id_dylib_cmd(args);
    let name = identity_name(args);
    lemma_identity_command(args);
    assert(bytes::occurs_at(c, name.push(0), bytes::u32_at(c, 8) as int));
    lemma_long(args);
    lemma_name(data, off, c, 0xd, name);
    lemma_word(data, off, c, 16);
    lemma_word(data, off, c, 20);
}

proof fn lemma_long(args: Args)
    requires
        identity_name(args).len() + 32 <= u32::MAX,
    ensures
        id_dylib_cmd(args).len() >= 24,
{
    crate::output_chunks::command_laws::lemma_string_command(
        0xd,
        seq![24u32, 0u32, args.sw.current_version, args.sw.compatibility_version],
        identity_name(args),
    );
}

/// Of the libraries that an output loads, those that it re-exports, and no
/// others, are found when it is read as a library.
pub proof fn lemma_reexports_read_back(
    d: DylibFile,
    data: Seq<u8>,
    off: int,
    dir: Seq<u8>,
    acc: DylibCommandsView,
)
    requires
        d.install_name.len() + 32 <= u32::MAX,
        has_no_nul(d.install_name@),
        stands_at(data, off, load_dylib_cmd(d)),
    ensures
        dylib_step(data, off, dir, acc) == Some(
            if d.is_reexported {
                DylibCommandsView {
                    reexports: acc.reexports.push(text::lossy(d.install_name@)),
                    ..acc
                }
            } else {
                acc
            },
        ),
{
    let c = load_dylib_cmd(d);
    lemma_library_command(d);
    let cmd: u32 = if d.is_reexported {
        0x8000_001f
    } else if d.is_weak {
        0x8000_0018
    } else {
        0xc
    };
    assert(c.len() >= 24 + d.install_name.len());
    lemma_name(data, off, c, cmd, d.install_name@);
    assert(0x1fu32 | 0x8000_0000u32 == 0x8000_001f && 0x18u32 | 0x8000_0000u32 == 0x8000_0018
        && 0x1cu32 | 0x8000_0000u32 == 0x8000_001c) by (bit_vector);
}

/// A search path that an output carries is found when it is read as a
/// library.
pub proof fn lemma_rpath_reads_back(
    path: Seq<u8>,
    data: Seq<u8>,
    off: int,
    dir: Seq<u8>,
    acc: DylibCommandsView,
)
    requires
        path.len() + 32 <= u32::MAX,
        has_no_nul(path),
        stands_at(data, off, path_cmd(0x8000_001c, path)),
    ensures
        dylib_step(data, off, dir, acc) == Some(
            DylibCommandsView {
                rpaths: acc.rpaths.push(loader_rpath(dir, text::lossy(path))),
                ..acc
            },
        ),
{
    let c = path_cmd(0x8000_001c, path);
    lemma_path_command(0x8000_001c, path);
    assert(c.len() >= 12) by {
        crate::output_chunks::command_laws::lemma_string_command(0x8000_001c, seq![12u32], path);
    }
    lemma_name(data, off, c, 0x8000_001c, path);
    assert(0x1fu32 | 0x8000_0000u32 == 0x8000_001f && 0x1cu32 | 0x8000_0000u32 == 0x8000_001c) by (
    bit_vector);
}

} // verus!
