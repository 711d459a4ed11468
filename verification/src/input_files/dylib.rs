//! Dylib binaries and stub files: what a library exports, and which other
//! libraries it exports through itself.
use super::commands::SymtabInfo;
use super::strtab::{symbol_name, validate_strtab};
use super::DylibFile;
use crate::args::Args;
use crate::macho::consts::{
    LC_DYSYMTAB, LC_ID_DYLIB, LC_REEXPORT_DYLIB, LC_RPATH, LC_SEGMENT_64, LC_SUB_CLIENT,
    LC_SUB_FRAMEWORK, LC_SYMTAB, MH_APP_EXTENSION_SAFE, MH_DEAD_STRIPPABLE_DYLIB, MH_EXECUTE,
    SECTION_TYPE, S_THREAD_LOCAL_VARIABLES,
};
use crate::macho::NList;
use crate::name_set::NameSet;
use crate::tapi::TbdFile;
use crate::util::{bytes, text};
use vstd::prelude::*;
use vstd::string::*;

verus! {

/// Why a dylib binary cannot be read.
#[derive(Clone, Copy, Debug, PartialEq, Eq, Structural)]
pub enum DylibError {
    /// The file is cut short, or a command reaches outside.
    Malformed,
    /// There is no LC_ID_DYLIB.
    NoInstallName,
}

/// What the load commands of a dylib binary say.
#[derive(Debug)]
pub struct DylibCommands {
    pub install_name: Vec<u8>,
    pub current_version: u32,
    pub compatibility_version: u32,
    pub symtab: Option<SymtabInfo>,
    /// The range of the defined external symbols: its start and its length.
    pub extdefs: Option<(u32, u32)>,
    pub reexports: Vec<Vec<u8>>,
    pub rpaths: Vec<Vec<u8>>,
    pub sub_framework: Option<Vec<u8>>,
    pub sub_clients: Vec<Vec<u8>>,
    /// How many sections there are, and which of them hold descriptors of
    /// thread-local variables.
    pub nsects: u8,
    pub tlv_sects: Vec<u8>,
}

/// What the load commands of a dylib binary say, as mathematical values.
#[verifier::ext_equal]
pub struct DylibCommandsView {
    pub install_name: Seq<u8>,
    pub current_version: u32,
    pub compatibility_version: u32,
    pub symtab: Option<SymtabInfo>,
    pub extdefs: Option<(u32, u32)>,
    pub reexports: Seq<Seq<u8>>,
    pub rpaths: Seq<Seq<u8>>,
    pub sub_framework: Option<Seq<u8>>,
    pub sub_clients: Seq<Seq<u8>>,
    pub nsects: u8,
    pub tlv_sects: Seq<u8>,
}

/// An optional name.
pub open spec fn opt_name(o: Option<Vec<u8>>) -> Option<Seq<u8>> {
    match o {
        Some(v) => Some(v@),
        None => None,
    }
}

impl View for DylibCommands {
    type V = DylibCommandsView;

    open spec fn view(&self) -> DylibCommandsView {
        DylibCommandsView {
            install_name: self.install_name@,
            current_version: self.current_version,
            compatibility_version: self.compatibility_version,
            symtab: self.symtab,
            extdefs: self.extdefs,
            reexports: bytes::views(self.reexports@),
            rpaths: bytes::views(self.rpaths@),
            sub_framework: opt_name(self.sub_framework),
            sub_clients: bytes::views(self.sub_clients@),
            nsects: self.nsects,
            tlv_sects: self.tlv_sects@,
        }
    }
}

/// The last slash at or in front of `n`, if any.
pub open spec fn last_slash(path: Seq<u8>, n: int) -> Option<int>
    decreases n,
{
    if n <= 0 {
        None
    } else if path[n - 1] == 47 {
        Some(n - 1)
    } else {
        last_slash(path, n - 1)
    }
}

/// The directory part of a path.
pub open spec fn dir_part(path: Seq<u8>) -> Seq<u8> {
    match last_slash(path, path.len() as int) {
        Some(i) => path.take(i),
        None => ".".spec_bytes(),
    }
}

/// Finds the last slash of a path.
pub fn find_last_slash(path: &[u8]) -> (r: Option<usize>)
    ensures
        match r {
            Some(i) => last_slash(path@, path.len() as int) == Some(i as int) && i < path.len(),
            None => last_slash(path@, path.len() as int) is None,
        },
{
    let mut n: usize = path.len();
    while n > 0
        invariant
            n <= path.len(),
            last_slash(path@, n as int) == last_slash(path@, path.len() as int),
        decreases n,
    {
        if path[n - 1] == 47 {
            return Some(n - 1);
        }
        n -= 1;
    }
    None
}

/// The directory part of a path, "." for a bare name.
pub fn dir_of(path: &[u8]) -> (r: Vec<u8>)
    ensures
        r@ == dir_part(path@),
{
    match find_last_slash(path) {
        Some(i) => {
            assert(path@.subrange(0, i as int) =~= path@.take(i as int));
            bytes::copy_range(path, 0, i)
        },
        None => bytes::to_vec(".".as_bytes()),
    }
}

/// A directory and a name in it.
pub open spec fn in_dir(dir: Seq<u8>, name: Seq<u8>) -> Seq<u8> {
    dir.push(47) + name
}

/// A directory and a name in it.
pub fn join_dir(dir: &[u8], name: &[u8]) -> (r: Vec<u8>)
    ensures
        r@ == in_dir(dir@, name@),
{
    let mut r: Vec<u8> = bytes::to_vec(dir);
    r.push(47);
    bytes::append(&mut r, name);
    r
}

/// What follows a prefix, if a text starts with it.
pub open spec fn behind(s: Seq<u8>, prefix: Seq<u8>) -> Option<Seq<u8>> {
    if bytes::has_prefix(s, prefix) {
        Some(s.skip(prefix.len() as int))
    } else {
        None
    }
}

/// What follows a prefix, if a text starts with it.
pub fn strip_prefix(s: &[u8], prefix: &[u8]) -> (r: Option<Vec<u8>>)
    ensures
        match r {
            Some(v) => behind(s@, prefix@) == Some(v@),
            None => behind(s@, prefix@) is None,
        },
{
    if bytes::starts_with(s, prefix) {
        let r: Vec<u8> = bytes::copy_range(s, prefix.len(), s.len());
        assert(r@ =~= s@.skip(prefix.len() as int));
        Some(r)
    } else {
        None
    }
}

/// The name in the load command at `off`: it stands where the command's
/// third word says, and ends at a NUL or with the command. What is not text
/// in it is replaced.
pub open spec fn command_name(data: Seq<u8>, off: int) -> Option<Seq<u8>> {
    let size = bytes::u32_at(data, off + 4);
    let nameoff = bytes::u32_at(data, off + 8);
    if off + 12 > data.len() || nameoff > size || off + size > data.len() {
        None
    } else {
        Some(text::lossy(bytes::until_nul(data.subrange(off + nameoff, off + size))))
    }
}

fn read_command_name(data: &[u8], off: usize) -> (r: Option<Vec<u8>>)
    requires
        off + 8 <= data.len(),
    ensures
        match r {
            Some(v) => command_name(data@, off as int) == Some(v@),
            None => command_name(data@, off as int) is None,
        },
{
    if data.len() - off < 12 {
        return None;
    }
    let size: u64 = bytes::get32(data, off + 4) as u64;
    let nameoff: u64 = bytes::get32(data, off + 8) as u64;
    if nameoff > size || size > (data.len() - off) as u64 {
        return None;
    }
    let name: Vec<u8> = bytes::copy_range(data, off + nameoff as usize, off + size as usize);
    let end: usize = bytes::find_byte(name.as_slice(), 0, 0);
    let r: &[u8] = vstd::slice::slice_subrange(name.as_slice(), 0, end);
    assert(r@ =~= bytes::until_nul(name@));
    Some(text::from_lossy(r))
}

/// An rpath, with @loader_path/ replaced by the library's directory.
pub open spec fn loader_rpath(dir: Seq<u8>, rpath: Seq<u8>) -> Seq<u8> {
    match behind(rpath, "@loader_path/".spec_bytes()) {
        Some(rest) => in_dir(dir, rest),
        None => rpath,
    }
}

fn expand_rpath(dir: &[u8], rpath: Vec<u8>) -> (r: Vec<u8>)
    ensures
        r@ == loader_rpath(dir@, rpath@),
{
    match strip_prefix(rpath.as_slice(), "@loader_path/".as_bytes()) {
        Some(rest) => join_dir(dir, rest.as_slice()),
        None => rpath,
    }
}

/// The sections of a segment command, from its `i`th on, added to the count
/// and to the list. `None` past the 255th.
pub open spec fn tlv_sections(data: Seq<u8>, off: int, n: int, i: int, acc: (u8, Seq<u8>)) -> Option<
    (u8, Seq<u8>),
>
    decreases n - i,
{
    if i >= n {
        Some(acc)
    } else if acc.0 == 255 {
        None
    } else {
        let flags = bytes::u32_at(data, off + 72 + 80 * i + 64);
        let ord = (acc.0 + 1) as u8;
        tlv_sections(
            data,
            off,
            n,
            i + 1,
            (
                ord,
                if flags & SECTION_TYPE == S_THREAD_LOCAL_VARIABLES {
                    acc.1.push(ord)
                } else {
                    acc.1
                },
            ),
        )
    }
}

fn read_tlv_sections(data: &[u8], off: usize, n: u32, nsects: u8, out: &mut Vec<u8>) -> (r: Option<
    u8,
>)
    requires
        off + 72 + 80 * n <= data.len(),
    ensures
        match r {
            Some(c) => tlv_sections(data@, off as int, n as int, 0, (nsects, old(out)@)) == Some(
                (c, final(out)@),
            ),
            None => tlv_sections(data@, off as int, n as int, 0, (nsects, old(out)@)) is None,
        },
{
    let ghost want = tlv_sections(data@, off as int, n as int, 0, (nsects, out@));
    let mut count: u8 = nsects;
    let mut i: u32 = 0;
    while i < n
        invariant
            i <= n,
            off + 72 + 80 * n <= data.len(),
            want == tlv_sections(data@, off as int, n as int, 0, (nsects, old(out)@)),
            want == tlv_sections(data@, off as int, n as int, i as int, (count, out@)),
        decreases n - i,
    {
        if count == 255 {
            return None;
        }
        let flags: u32 = bytes::get32(data, off + 72 + 80 * i as usize + 64);
        count += 1;
        if flags & SECTION_TYPE == S_THREAD_LOCAL_VARIABLES {
            out.push(count);
        }
        i += 1;
    }
    Some(count)
}

/// What is known after one more load command. `None` for one that reaches
/// outside the file.
pub open spec fn dylib_step(data: Seq<u8>, off: int, dir: Seq<u8>, acc: DylibCommandsView) -> Option<
    DylibCommandsView,
> {
    let cmd = bytes::u32_at(data, off);
    let name = command_name(data, off);
    if cmd == LC_ID_DYLIB {
        if off + 24 > data.len() || name is None {
            None
        } else {
            Some(
                DylibCommandsView {
                    install_name: name->0,
                    current_version: bytes::u32_at(data, off + 16),
                    compatibility_version: bytes::u32_at(data, off + 20),
                    ..acc
                },
            )
        }
    } else if cmd == LC_REEXPORT_DYLIB {
        if off + 24 > data.len() || name is None {
            None
        } else {
            Some(DylibCommandsView { reexports: acc.reexports.push(name->0), ..acc })
        }
    } else if cmd == LC_RPATH {
        if name is None {
            None
        } else {
            Some(DylibCommandsView { rpaths: acc.rpaths.push(loader_rpath(dir, name->0)), ..acc })
        }
    } else if cmd == LC_SUB_FRAMEWORK {
        if name is None {
            None
        } else {
            Some(DylibCommandsView { sub_framework: Some(name->0), ..acc })
        }
    } else if cmd == LC_SUB_CLIENT {
        if name is None {
            None
        } else {
            Some(DylibCommandsView { sub_clients: acc.sub_clients.push(name->0), ..acc })
        }
    } else if cmd == LC_SYMTAB {
        if off + 24 > data.len() {
            None
        } else {
            Some(
                DylibCommandsView {
                    symtab: Some(
                        SymtabInfo {
                            symoff: bytes::u32_at(data, off + 8),
                            nsyms: bytes::u32_at(data, off + 12),
                            stroff: bytes::u32_at(data, off + 16),
                            strsize: bytes::u32_at(data, off + 20),
                        },
                    ),
                    ..acc
                },
            )
        }
    } else if cmd == LC_DYSYMTAB {
        if off + 80 > data.len() {
            None
        } else {
            Some(
                DylibCommandsView {
                    extdefs: Some(
                        (bytes::u32_at(data, off + 16), bytes::u32_at(data, off + 20)),
                    ),
                    ..acc
                },
            )
        }
    } else if cmd == LC_SEGMENT_64 {
        let n = bytes::u32_at(data, off + 64);
        if off + 72 > data.len() || off + 72 + 80 * n > data.len() {
            None
        } else {
            match tlv_sections(data, off, n as int, 0, (acc.nsects, acc.tlv_sects)) {
                Some(t) => Some(DylibCommandsView { nsects: t.0, tlv_sects: t.1, ..acc }),
                None => None,
            }
        }
    } else {
        Some(acc)
    }
}

/// What is known after `n` load commands from `off` on.
pub open spec fn dylib_commands_from(
    data: Seq<u8>,
    off: int,
    n: nat,
    dir: Seq<u8>,
    acc: DylibCommandsView,
) -> Option<DylibCommandsView>
    decreases n,
{
    if n == 0 {
        Some(acc)
    } else if off + 8 > data.len() {
        None
    } else {
        match dylib_step(data, off, dir, acc) {
            Some(next) => dylib_commands_from(
                data,
                off + bytes::u32_at(data, off + 4),
                (n - 1) as nat,
                dir,
                next,
            ),
            None => None,
        }
    }
}

/// What is known before the first load command.
pub open spec fn no_dylib_commands() -> DylibCommandsView {
    DylibCommandsView {
        install_name: Seq::empty(),
        current_version: 0x1_0000,
        compatibility_version: 0x1_0000,
        symtab: None,
        extdefs: None,
        reexports: Seq::empty(),
        rpaths: Seq::empty(),
        sub_framework: None,
        sub_clients: Seq::empty(),
        nsects: 0,
        tlv_sects: Seq::empty(),
    }
}

/// Reads the commands that say something by name.
fn read_named_command(data: &[u8], off: usize, dir: &[u8], cmd: u32, acc: &mut DylibCommands) -> (r:
    bool)
    requires
        off + 8 <= data.len(),
        cmd == bytes::u32_at(data@, off as int),
        cmd == LC_ID_DYLIB || cmd == LC_REEXPORT_DYLIB || cmd == LC_RPATH || cmd
            == LC_SUB_FRAMEWORK || cmd == LC_SUB_CLIENT,
    ensures
        r == (dylib_step(data@, off as int, dir@, old(acc)@) is Some),
        r ==> dylib_step(data@, off as int, dir@, old(acc)@) == Some(final(acc)@),
{
    let ghost before = acc@;
    let name: Vec<u8> = match read_command_name(data, off) {
        Some(v) => v,
        None => {
            return false;
        },
    };
    if cmd == LC_ID_DYLIB {
        if data.len() - off < 24 {
            return false;
        }
        acc.install_name = name;
        acc.current_version = bytes::get32(data, off + 16);
        acc.compatibility_version = bytes::get32(data, off + 20);
        assert(acc@ =~= dylib_step(data@, off as int, dir@, before)->0);
    } else if cmd == LC_REEXPORT_DYLIB {
        if data.len() - off < 24 {
            return false;
        }
        text::push_name(&mut acc.reexports, name);
        assert(acc@ =~= dylib_step(data@, off as int, dir@, before)->0);
    } else if cmd == LC_RPATH {
        text::push_name(&mut acc.rpaths, expand_rpath(dir, name));
        assert(acc@ =~= dylib_step(data@, off as int, dir@, before)->0);
    } else if cmd == LC_SUB_FRAMEWORK {
        acc.sub_framework = Some(name);
        assert(acc@ =~= dylib_step(data@, off as int, dir@, before)->0);
    } else {
        text::push_name(&mut acc.sub_clients, name);
        assert(acc@ =~= dylib_step(data@, off as int, dir@, before)->0);
    }
    true
}

/// Reads one load command.
fn read_dylib_command(data: &[u8], off: usize, dir: &[u8], acc: &mut DylibCommands) -> (r: bool)
    requires
        off + 8 <= data.len(),
    ensures
        r == (dylib_step(data@, off as int, dir@, old(acc)@) is Some),
        r ==> dylib_step(data@, off as int, dir@, old(acc)@) == Some(final(acc)@),
{
    let ghost before = acc@;
    let cmd: u32 = bytes::get32(data, off);
    let room: usize = data.len() - off;
    if cmd == LC_ID_DYLIB || cmd == LC_REEXPORT_DYLIB || cmd == LC_RPATH || cmd == LC_SUB_FRAMEWORK
        || cmd == LC_SUB_CLIENT {
        return read_named_command(data, off, dir, cmd, acc);
    }
    if cmd == LC_SYMTAB {
        if room < 24 {
            return false;
        }
        acc.symtab = Some(
            SymtabInfo {
                symoff: bytes::get32(data, off + 8),
                nsyms: bytes::get32(data, off + 12),
                stroff: bytes::get32(data, off + 16),
                strsize: bytes::get32(data, off + 20),
            },
        );
        assert(acc@ =~= dylib_step(data@, off as int, dir@, before)->0);
        return true;
    }
    if cmd == LC_DYSYMTAB {
        if room < 80 {
            return false;
        }
        acc.extdefs = Some((bytes::get32(data, off + 16), bytes::get32(data, off + 20)));
        assert(acc@ =~= dylib_step(data@, off as int, dir@, before)->0);
        return true;
    }
    if cmd == LC_SEGMENT_64 {
        if room < 72 {
            return false;
        }
        let n: u32 = bytes::get32(data, off + 64);
        if 72 + 80 * n as u64 > room as u64 {
            return false;
        }
        match read_tlv_sections(data, off, n, acc.nsects, &mut acc.tlv_sects) {
            Some(c) => {
                acc.nsects = c;
                assert(acc@ =~= dylib_step(data@, off as int, dir@, before)->0);
                return true;
            },
            None => {
                return false;
            },
        }
    }
    true
}

/// Reads the load commands of a dylib binary.
pub fn read_dylib_commands(data: &[u8], ncmds: u32, dir: &[u8]) -> (r: Option<DylibCommands>)
    ensures
        match r {
            Some(c) => dylib_commands_from(
                data@,
                32,
                ncmds as nat,
                dir@,
                no_dylib_commands(),
            ) == Some(c@),
            None => dylib_commands_from(
                data@,
                32,
                ncmds as nat,
                dir@,
                no_dylib_commands(),
            ) is None,
        },
{
    let mut acc = DylibCommands {
        install_name: Vec::new(),
        current_version: 0x1_0000,
        compatibility_version: 0x1_0000,
        symtab: None,
        extdefs: None,
        reexports: Vec::new(),
        rpaths: Vec::new(),
        sub_framework: None,
        sub_clients: Vec::new(),
        nsects: 0,
        tlv_sects: Vec::new(),
    };
    assert(acc@ =~= no_dylib_commands());
    let ghost want = dylib_commands_from(data@, 32, ncmds as nat, dir@, no_dylib_commands());
    let mut off: usize = 32;
    let mut left: u32 = ncmds;
    while left > 0
        invariant
            want == dylib_commands_from(data@, 32, ncmds as nat, dir@, no_dylib_commands()),
            want == dylib_commands_from(data@, off as int, left as nat, dir@, acc@),
        decreases left,
    {
        if off > data.len() || data.len() - off < 8 {
            return None;
        }
        if !read_dylib_command(data, off, dir, &mut acc) {
            return None;
        }
        let size: u32 = bytes::get32(data, off + 4);
        left -= 1;
        assert(want == dylib_commands_from(data@, off + size, left as nat, dir@, acc@));
        if size as u64 > (data.len() - off) as u64 {
            if left == 0 {
                return Some(acc);
            }
            return None;
        }
        off = off + size as usize;
    }
    Some(acc)
}

/// The names and the thread-local names among the `n` symbols from `first`
/// on.
pub open spec fn export_names(
    data: Seq<u8>,
    t: SymtabInfo,
    strtab: Seq<u8>,
    tlv_sects: Seq<u8>,
    first: int,
    n: int,
) -> (Seq<Seq<u8>>, Seq<Seq<u8>>)
    decreases n,
{
    if n <= 0 {
        (Seq::empty(), Seq::empty())
    } else {
        let before = export_names(data, t, strtab, tlv_sects, first, n - 1);
        let e = NList::at(data, t.symoff + 16 * (first + n - 1));
        let name = super::strtab::name_at(strtab, e.n_strx);
        (
            before.0.push(name),
            if tlv_sects.contains(e.n_sect) {
                before.1.push(name)
            } else {
                before.1
            },
        )
    }
}

/// What a dylib binary exports: the defined external symbols of its symbol
/// table. `None` when the tables reach outside the file.
pub open spec fn binary_exports(data: Seq<u8>, c: DylibCommandsView) -> Option<
    (Seq<Seq<u8>>, Seq<Seq<u8>>),
> {
    match (c.symtab, c.extdefs) {
        (Some(t), Some(x)) => if t.symoff + 16 * t.nsyms > data.len() || t.stroff + t.strsize
            > data.len() || t.stroff + t.strsize > u32::MAX || x.0 + x.1 > t.nsyms {
            None
        } else {
            let s = data.subrange(t.stroff as int, t.stroff + t.strsize);
            Some(
                export_names(
                    data,
                    t,
                    super::strtab::validated(s),
                    c.tlv_sects,
                    x.0 as int,
                    x.1 as int,
                ),
            )
        },
        _ => Some((Seq::empty(), Seq::empty())),
    }
}

fn has_byte(list: &Vec<u8>, b: u8) -> (r: bool)
    ensures
        r == list@.contains(b),
{
    let mut i: usize = 0;
    while i < list.len()
        invariant
            i <= list.len(),
            forall|k: int| 0 <= k < i ==> list[k] != b,
        decreases list.len() - i,
    {
        if list[i] == b {
            assert(list@[i as int] == b);
            return true;
        }
        i += 1;
    }
    false
}

fn read_exports(data: &[u8], c: &DylibCommands) -> (r: Option<(Vec<Vec<u8>>, Vec<Vec<u8>>)>)
    ensures
        match r {
            Some(e) => binary_exports(data@, c@) == Some(
                (bytes::views(e.0@), bytes::views(e.1@)),
            ),
            None => binary_exports(data@, c@) is None,
        },
{
    let mut names: Vec<Vec<u8>> = Vec::new();
    let mut tlvs: Vec<Vec<u8>> = Vec::new();
    assert(bytes::views(names@) =~= Seq::empty());
    assert(bytes::views(tlvs@) =~= Seq::empty());
    let t: SymtabInfo = match c.symtab {
        Some(t) => t,
        None => {
            return Some((names, tlvs));
        },
    };
    let (first, count): (u32, u32) = match c.extdefs {
        Some(x) => x,
        None => {
            return Some((names, tlvs));
        },
    };
    let len: u64 = data.len() as u64;
    if t.symoff as u64 + 16 * t.nsyms as u64 > len || t.stroff as u64 + t.strsize as u64 > len
        || t.stroff as u64 + t.strsize as u64 > 0xffff_ffff || first as u64 + count as u64
        > t.nsyms as u64 {
        return None;
    }
    let strings: Vec<u8> = bytes::copy_range(
        data,
        t.stroff as usize,
        t.stroff as usize + t.strsize as usize,
    );
    let strtab: &[u8] = validate_strtab(strings.as_slice());
    let mut n: u32 = 0;
    while n < count
        invariant
            n <= count,
            first + count <= t.nsyms,
            t.symoff + 16 * t.nsyms <= data.len(),
            (bytes::views(names@), bytes::views(tlvs@)) == export_names(
                data@,
                t,
                strtab@,
                c.tlv_sects@,
                first as int,
                n as int,
            ),
        decreases count - n,
    {
        let e: NList = NList::read(data, t.symoff as usize + 16 * (first as usize + n as usize));
        let name: Vec<u8> = symbol_name(strtab, &e);
        if has_byte(&c.tlv_sects, e.n_sect) {
            text::push_name(&mut tlvs, bytes::to_vec(name.as_slice()));
        }
        text::push_name(&mut names, name);
        n += 1;
    }
    Some((names, tlvs))
}

/// A dylib binary: what its load commands say, its flags, and its own
/// exports.
#[derive(Debug)]
pub struct DylibBinary {
    pub flags: u32,
    pub commands: DylibCommands,
    pub exports: Vec<Vec<u8>>,
    pub tlv_exports: Vec<Vec<u8>>,
}

/// A dylib binary, as mathematical values.
#[verifier::ext_equal]
pub struct DylibBinaryView {
    pub flags: u32,
    pub commands: DylibCommandsView,
    pub exports: Seq<Seq<u8>>,
    pub tlv_exports: Seq<Seq<u8>>,
}

impl View for DylibBinary {
    type V = DylibBinaryView;

    open spec fn view(&self) -> DylibBinaryView {
        DylibBinaryView {
            flags: self.flags,
            commands: self.commands@,
            exports: bytes::views(self.exports@),
            tlv_exports: bytes::views(self.tlv_exports@),
        }
    }
}

/// What a dylib binary at a path says.
pub open spec fn dylib_binary(data: Seq<u8>, path: Seq<u8>) -> Option<DylibBinaryView> {
    if data.len() < 32 {
        None
    } else {
        match dylib_commands_from(
            data,
            32,
            bytes::u32_at(data, 16) as nat,
            dir_part(path),
            no_dylib_commands(),
        ) {
            None => None,
            Some(c) => match binary_exports(data, c) {
                None => None,
                Some(e) => Some(
                    DylibBinaryView {
                        flags: bytes::u32_at(data, 24),
                        commands: c,
                        exports: e.0,
                        tlv_exports: e.1,
                    },
                ),
            },
        }
    }
}

/// Reads a dylib binary: its identity, its exports, and what it re-exports.
pub fn dylib_binary_exports(data: &[u8], path: &[u8]) -> (r: Option<DylibBinary>)
    ensures
        match r {
            Some(b) => dylib_binary(data@, path@) == Some(b@),
            None => dylib_binary(data@, path@) is None,
        },
{
    if data.len() < 32 {
        return None;
    }
    let dir: Vec<u8> = dir_of(path);
    let commands: DylibCommands = match read_dylib_commands(
        data,
        bytes::get32(data, 16),
        dir.as_slice(),
    ) {
        Some(c) => c,
        None => {
            return None;
        },
    };
    match read_exports(data, &commands) {
        Some((exports, tlv_exports)) => {
            let b = DylibBinary { flags: bytes::get32(data, 24), commands, exports, tlv_exports };
            assert(b@ =~= dylib_binary(data@, path@)->0);
            Some(b)
        },
        None => None,
    }
}

/// A reference to another library: its install name, and the directory and
/// the rpaths of the library that names it.
#[derive(Debug)]
pub struct DylibRef {
    pub name: Vec<u8>,
    pub dir: Vec<u8>,
    pub rpaths: Vec<Vec<u8>>,
}

/// A reference to another library, as mathematical values.
#[verifier::ext_equal]
pub struct RefView {
    pub name: Seq<u8>,
    pub dir: Seq<u8>,
    pub rpaths: Seq<Seq<u8>>,
}

impl View for DylibRef {
    type V = RefView;

    open spec fn view(&self) -> RefView {
        RefView { name: self.name@, dir: self.dir@, rpaths: bytes::views(self.rpaths@) }
    }
}

/// A list of references.
pub open spec fn ref_views(v: Seq<DylibRef>) -> Seq<RefView> {
    v.map_values(|r: DylibRef| r@)
}

/// References to all names, from a library in a directory.
pub open spec fn refs_from(names: Seq<Seq<u8>>, dir: Seq<u8>, rpaths: Seq<Seq<u8>>) -> Seq<RefView> {
    names.map_values(|n: Seq<u8>| RefView { name: n, dir, rpaths })
}

fn push_refs(queue: &mut Vec<DylibRef>, names: &Vec<Vec<u8>>, dir: &[u8], rpaths: &Vec<Vec<u8>>)
    ensures
        ref_views(final(queue)@) == ref_views(old(queue)@) + refs_from(
            bytes::views(names@),
            dir@,
            bytes::views(rpaths@),
        ),
{
    let ghost start = ref_views(queue@);
    let ghost nv = bytes::views(names@);
    let ghost v = refs_from(nv, dir@, bytes::views(rpaths@));
    assert(start + v.take(0) =~= start);
    let mut i: usize = 0;
    while i < names.len()
        invariant
            i <= names.len(),
            nv == bytes::views(names@),
            v == refs_from(nv, dir@, bytes::views(rpaths@)),
            ref_views(queue@) == start + v.take(i as int),
        decreases names.len() - i,
    {
        assert(nv[i as int] == names[i as int]@);
        let mut paths: Vec<Vec<u8>> = Vec::new();
        assert(bytes::views(paths@) =~= Seq::empty());
        text::push_names(&mut paths, rpaths);
        let r = DylibRef {
            name: bytes::to_vec(names[i].as_slice()),
            dir: bytes::to_vec(dir),
            rpaths: paths,
        };
        assert(bytes::views(paths@) =~= bytes::views(rpaths@));
        let ghost rv = r@;
        let ghost before = ref_views(queue@);
        queue.push(r);
        assert(ref_views(queue@) =~= before.push(rv));
        assert(rv =~= v[i as int]);
        assert(start + v.take(i + 1) =~= (start + v.take(i as int)).push(v[i as int]));
        i += 1;
    }
    assert(v.take(i as int) =~= v);
}

/// The walk over the libraries that a library exports through itself: what
/// it exports so far, and the references that are still to be followed.
#[derive(Debug)]
pub struct ReexportWalk {
    pub exports: NameSet,
    pub tlv_exports: NameSet,
    pub visited: NameSet,
    pub queue: Vec<DylibRef>,
}

/// The walk's state, as mathematical values.
#[verifier::ext_equal]
pub struct WalkView {
    pub exports: Seq<Seq<u8>>,
    pub tlv_exports: Seq<Seq<u8>>,
    pub visited: Seq<Seq<u8>>,
    pub queue: Seq<RefView>,
}

impl View for ReexportWalk {
    type V = WalkView;

    open spec fn view(&self) -> WalkView {
        WalkView {
            exports: self.exports@,
            tlv_exports: self.tlv_exports@,
            visited: self.visited@,
            queue: ref_views(self.queue@),
        }
    }
}

/// The walk with the exports and references of a dylib binary at a path.
pub open spec fn with_binary(w: WalkView, b: DylibBinaryView, path: Seq<u8>) -> WalkView {
    WalkView {
        exports: crate::name_set::with_all(w.exports, b.exports),
        tlv_exports: crate::name_set::with_all(w.tlv_exports, b.tlv_exports),
        queue: w.queue + refs_from(b.commands.reexports, dir_part(path), b.commands.rpaths),
        ..w
    }
}

/// The walk with the exports and references of a stub file at a path. Weak
/// and thread-local exports are exports too.
pub open spec fn with_stub(w: WalkView, t: crate::tapi::TbdView, path: Seq<u8>) -> WalkView {
    WalkView {
        exports: crate::name_set::with_all(
            crate::name_set::with_all(
                crate::name_set::with_all(w.exports, t.exports),
                t.weak_exports,
            ),
            t.tlv_exports,
        ),
        tlv_exports: crate::name_set::with_all(w.tlv_exports, t.tlv_exports),
        queue: w.queue + refs_from(t.external_reexports, dir_part(path), Seq::empty()),
        ..w
    }
}

/// The queue without the references at its end that were followed before,
/// and the last one that was not.
pub open spec fn next_ref(queue: Seq<RefView>, visited: Seq<Seq<u8>>) -> (
    Seq<RefView>,
    Option<RefView>,
)
    decreases queue.len(),
{
    if queue.len() == 0 {
        (queue, None)
    } else if visited.contains(queue.last().name) {
        next_ref(queue.drop_last(), visited)
    } else {
        (queue.drop_last(), Some(queue.last()))
    }
}

impl ReexportWalk {
    /// True when the sets are sound.
    pub open spec fn wf(&self) -> bool {
        self.exports.wf() && self.tlv_exports.wf() && self.visited.wf()
    }

    /// A walk that knows nothing yet.
    pub fn new() -> (r: ReexportWalk)
        ensures
            r.wf(),
            r@ == (WalkView {
                exports: Seq::empty(),
                tlv_exports: Seq::empty(),
                visited: Seq::empty(),
                queue: Seq::empty(),
            }),
    {
        let r = ReexportWalk {
            exports: NameSet::new(),
            tlv_exports: NameSet::new(),
            visited: NameSet::new(),
            queue: Vec::new(),
        };
        assert(ref_views(r.queue@) =~= Seq::empty());
        r
    }

    /// Adds a dylib binary's exports and references.
    pub fn add_binary(&mut self, b: &DylibBinary, path: &[u8])
        requires
            old(self).wf(),
        ensures
            final(self).wf(),
            final(self)@ == with_binary(old(self)@, b@, path@),
    {
        self.exports.insert_all(&b.exports);
        self.tlv_exports.insert_all(&b.tlv_exports);
        let dir: Vec<u8> = dir_of(path);
        push_refs(
            &mut self.queue,
            &b.commands.reexports,
            dir.as_slice(),
            &b.commands.rpaths,
        );
    }

    /// Adds a stub file's exports and references.
    pub fn add_stub(&mut self, t: &TbdFile, path: &[u8])
        requires
            old(self).wf(),
        ensures
            final(self).wf(),
            final(self)@ == with_stub(old(self)@, t@, path@),
    {
        self.exports.insert_all(&t.exports);
        self.exports.insert_all(&t.weak_exports);
        self.exports.insert_all(&t.tlv_exports);
        self.tlv_exports.insert_all(&t.tlv_exports);
        let dir: Vec<u8> = dir_of(path);
        let none: Vec<Vec<u8>> = Vec::new();
        assert(bytes::views(none@) =~= Seq::empty());
        push_refs(&mut self.queue, &t.external_reexports, dir.as_slice(), &none);
    }

    /// The next library to look at: the last reference to one that was not
    /// looked at before.
    pub fn next_library(&mut self) -> (r: Option<DylibRef>)
        requires
            old(self).wf(),
        ensures
            final(self).wf(),
            ({
                let (queue, found) = next_ref(old(self)@.queue, old(self)@.visited);
                match r {
                    Some(n) => found == Some(n@) && final(self)@ == (WalkView {
                        queue,
                        visited: crate::name_set::with_name(old(self)@.visited, n@.name),
                        ..old(self)@
                    }),
                    None => found is None && final(self)@ == (WalkView { queue, ..old(self)@ }),
                }
            }),
    {
        let ghost start = self@;
        let ghost want = next_ref(start.queue, start.visited);
        loop
            invariant
                self.wf(),
                start == old(self)@,
                self@.exports == start.exports,
                self@.tlv_exports == start.tlv_exports,
                self@.visited == start.visited,
                want == next_ref(start.queue, start.visited),
                want == next_ref(self@.queue, start.visited),
            decreases self.queue.len(),
        {
            let ghost before = ref_views(self.queue@);
            match self.queue.pop() {
                Some(r) => {
                    assert(ref_views(self.queue@) =~= before.drop_last());
                    assert(before.last() == r@);
                    if self.visited.insert(r.name.as_slice()) {
                        return Some(r);
                    }
                    assert(self@.visited =~= start.visited);
                },
                None => {
                    assert(self@ =~= (WalkView { queue: want.0, ..start }));
                    return None;
                },
            }
        }
    }
}

/// The places where a reference may lead, in the order in which they are
/// tried: the directory of the referring library, of the output, one of the
/// referring library's rpaths, or the name itself.
pub open spec fn ref_paths(args: Args, r: RefView) -> Seq<Seq<u8>> {
    match behind(r.name, "@loader_path/".spec_bytes()) {
        Some(rest) => seq![in_dir(r.dir, rest)],
        None => match behind(r.name, "@executable_path/".spec_bytes()) {
            Some(rest) => match args.executable_path {
                Some(p) => seq![in_dir(dir_part(p@), rest)],
                None => if args.sw.output_type == MH_EXECUTE {
                    seq![in_dir(dir_part(args.output@), rest)]
                } else {
                    Seq::empty()
                },
            },
            None => match behind(r.name, "@rpath/".spec_bytes()) {
                Some(rest) => r.rpaths.map_values(|p: Seq<u8>| in_dir(p, rest)),
                None => seq![r.name],
            },
        },
    }
}

fn one_path(p: Vec<u8>) -> (r: Vec<Vec<u8>>)
    ensures
        bytes::views(r@) == seq![p@],
{
    let ghost pv = p@;
    let mut r: Vec<Vec<u8>> = Vec::new();
    assert(bytes::views(r@) =~= Seq::empty());
    text::push_name(&mut r, p);
    assert(bytes::views(r@) =~= seq![pv]);
    r
}

/// Lists the places where a reference may lead.
pub fn resolve_dylib_ref(args: &Args, r: &DylibRef) -> (v: Vec<Vec<u8>>)
    ensures
        bytes::views(v@) == ref_paths(*args, r@),
{
    if let Some(rest) = strip_prefix(r.name.as_slice(), "@loader_path/".as_bytes()) {
        return one_path(join_dir(r.dir.as_slice(), rest.as_slice()));
    }
    if let Some(rest) = strip_prefix(r.name.as_slice(), "@executable_path/".as_bytes()) {
        return match &args.executable_path {
            Some(p) => {
                let dir: Vec<u8> = dir_of(p.as_slice());
                one_path(join_dir(dir.as_slice(), rest.as_slice()))
            },
            None => {
                if args.sw.output_type == MH_EXECUTE {
                    let dir: Vec<u8> = dir_of(args.output.as_slice());
                    one_path(join_dir(dir.as_slice(), rest.as_slice()))
                } else {
                    let none: Vec<Vec<u8>> = Vec::new();
                    assert(bytes::views(none@) =~= Seq::empty());
                    none
                }
            },
        };
    }
    if let Some(rest) = strip_prefix(r.name.as_slice(), "@rpath/".as_bytes()) {
        let ghost rv = bytes::views(r.rpaths@);
        let ghost want = rv.map_values(|p: Seq<u8>| in_dir(p, rest@));
        let mut v: Vec<Vec<u8>> = Vec::new();
        assert(bytes::views(v@) =~= want.take(0));
        let mut i: usize = 0;
        while i < r.rpaths.len()
            invariant
                i <= r.rpaths.len(),
                rv == bytes::views(r.rpaths@),
                want == rv.map_values(|p: Seq<u8>| in_dir(p, rest@)),
                bytes::views(v@) == want.take(i as int),
            decreases r.rpaths.len() - i,
        {
            assert(rv[i as int] == r.rpaths[i as int]@);
            text::push_name(&mut v, join_dir(r.rpaths[i].as_slice(), rest.as_slice()));
            assert(want.take(i + 1) =~= want.take(i as int).push(want[i as int]));
            i += 1;
        }
        assert(want.take(i as int) =~= want);
        return v;
    }
    one_path(bytes::to_vec(r.name.as_slice()))
}

/// The library that a walk from a dylib binary led to, without its ordinal
/// and priority. Fails without an install name.
pub fn parse_dylib_binary(b: DylibBinary, w: ReexportWalk, path: &[u8]) -> (r: Result<
    DylibFile,
    DylibError,
>)
    requires
        w.wf(),
    ensures
        match r {
            Ok(d) => {
                &&& b@.commands.install_name.len() > 0
                &&& d.path@ == path@
                &&& d.install_name@ == b@.commands.install_name
                &&& d.current_version == b@.commands.current_version
                &&& d.compatibility_version == b@.commands.compatibility_version
                &&& d.dylib_idx == 0
                &&& d.priority == 0
                &&& !d.is_weak && !d.is_reexported && !d.is_needed && !d.is_bundle_loader
                &&& d.is_dead_strippable == (b@.flags & MH_DEAD_STRIPPABLE_DYLIB != 0)
                &&& d.is_app_extension_safe == (b@.flags & MH_APP_EXTENSION_SAFE != 0)
                &&& opt_name(d.sub_framework) == b@.commands.sub_framework
                &&& bytes::views(d.sub_clients@) == b@.commands.sub_clients
                &&& bytes::views(d.exports@) == w@.exports
                &&& bytes::views(d.tlv_exports@) == w@.tlv_exports
                &&& bytes::views(d.weak_exports@) == Seq::<Seq<u8>>::empty()
            },
            Err(e) => e == DylibError::NoInstallName && b@.commands.install_name.len() == 0,
        },
{
    if b.commands.install_name.len() == 0 {
        return Err(DylibError::NoInstallName);
    }
    let none: Vec<Vec<u8>> = Vec::new();
    assert(bytes::views(none@) =~= Seq::<Seq<u8>>::empty());
    Ok(
        DylibFile {
            path: bytes::to_vec(path),
            install_name: b.commands.install_name,
            current_version: b.commands.current_version,
            compatibility_version: b.commands.compatibility_version,
            dylib_idx: 0,
            priority: 0,
            is_weak: false,
            is_reexported: false,
            is_needed: false,
            is_dead_strippable: b.flags & MH_DEAD_STRIPPABLE_DYLIB != 0,
            is_app_extension_safe: b.flags & MH_APP_EXTENSION_SAFE != 0,
            sub_framework: b.commands.sub_framework,
            sub_clients: b.commands.sub_clients,
            exports: w.exports.into_names(),
            tlv_exports: w.tlv_exports.into_names(),
            weak_exports: none,
            is_bundle_loader: false,
        },
    )
}

/// The library that a walk from a stub file led to, without its ordinal and
/// priority.
pub fn parse_dylib(t: TbdFile, w: ReexportWalk, path: &[u8]) -> (d: DylibFile)
    requires
        w.wf(),
    ensures
        d.path@ == path@,
        d.install_name@ == t@.install_name,
        d.current_version == t@.current_version,
        d.compatibility_version == 0x1_0000,
        d.dylib_idx == 0,
        d.priority == 0,
        !d.is_weak && !d.is_reexported && !d.is_needed && !d.is_bundle_loader,
        !d.is_dead_strippable,
        d.is_app_extension_safe == !t@.not_app_extension_safe,
        d.sub_framework is None,
        bytes::views(d.sub_clients@) == Seq::<Seq<u8>>::empty(),
        bytes::views(d.exports@) == w@.exports,
        bytes::views(d.tlv_exports@) == w@.tlv_exports,
        bytes::views(d.weak_exports@) == t@.weak_exports,
{
    let none: Vec<Vec<u8>> = Vec::new();
    assert(bytes::views(none@) =~= Seq::<Seq<u8>>::empty());
    DylibFile {
        path: bytes::to_vec(path),
        install_name: t.install_name,
        current_version: t.current_version,
        compatibility_version: 0x1_0000,
        dylib_idx: 0,
        priority: 0,
        is_weak: false,
        is_reexported: false,
        is_needed: false,
        is_dead_strippable: false,
        is_app_extension_safe: !t.not_app_extension_safe,
        sub_framework: None,
        sub_clients: none,
        exports: w.exports.into_names(),
        tlv_exports: w.tlv_exports.into_names(),
        weak_exports: t.weak_exports,
        is_bundle_loader: false,
    }
}

} // verus!
