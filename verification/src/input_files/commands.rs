//! Load commands of object files.
use crate::macho::consts::{
    LC_DATA_IN_CODE, LC_LINKER_OPTIMIZATION_HINT, LC_LINKER_OPTION, LC_SEGMENT_64, LC_SYMTAB,
};
use crate::macho::{MachSection, SectionView};
use crate::util::bytes;
use vstd::prelude::*;

verus! {

/// Where an LC_SYMTAB command says the symbol table is.
#[derive(Clone, Copy, Debug, PartialEq, Eq, Structural)]
pub struct SymtabInfo {
    pub symoff: u32,
    pub nsyms: u32,
    pub stroff: u32,
    pub strsize: u32,
}

/// What the load commands of an object say.
#[derive(Debug)]
pub struct Commands {
    pub sect_hdrs: Vec<MachSection>,
    pub symtab: Option<SymtabInfo>,
    pub linker_options: Vec<Vec<Vec<u8>>>,
    pub dice: Vec<(u32, u16, u16)>,
    pub loh: Vec<(u8, Vec<u64>)>,
}

/// What the load commands of an object say, as mathematical values.
#[verifier::ext_equal]
pub struct CommandsView {
    pub sect_hdrs: Seq<SectionView>,
    pub symtab: Option<SymtabInfo>,
    pub linker_options: Seq<Seq<Seq<u8>>>,
    pub dice: Seq<(u32, u16, u16)>,
    pub loh: Seq<(u8, Seq<u64>)>,
}

/// A list of lists of strings.
pub open spec fn option_views(v: Seq<Vec<Vec<u8>>>) -> Seq<Seq<Seq<u8>>> {
    v.map_values(|o: Vec<Vec<u8>>| bytes::views(o@))
}

/// A list of hints.
pub open spec fn loh_views(v: Seq<(u8, Vec<u64>)>) -> Seq<(u8, Seq<u64>)> {
    v.map_values(|h: (u8, Vec<u64>)| (h.0, h.1@))
}

impl View for Commands {
    type V = CommandsView;

    open spec fn view(&self) -> CommandsView {
        CommandsView {
            sect_hdrs: crate::arch::section_views(self.sect_hdrs@),
            symtab: self.symtab,
            linker_options: option_views(self.linker_options@),
            dice: self.dice@,
            loh: loh_views(self.loh@),
        }
    }
}

/// The `n` section records from `off` on.
pub open spec fn sections_at(data: Seq<u8>, off: int, n: int) -> Seq<SectionView> {
    Seq::new(n as nat, |i: int| SectionView::at(data, off + 80 * i))
}

/// `n` NUL-terminated strings from `p` on, none reaching past `end`, after
/// those in `acc`. What is not text in them is replaced.
pub open spec fn strings_from(
    data: Seq<u8>,
    p: int,
    end: int,
    n: nat,
    acc: Seq<Seq<u8>>,
) -> Option<Seq<Seq<u8>>>
    decreases n,
{
    if n == 0 {
        Some(acc)
    } else if p < 0 || p > end || end > data.len() {
        None
    } else {
        let q = bytes::index_of_byte(data.take(end), 0, p);
        strings_from(
            data,
            q + 1,
            end,
            (n - 1) as nat,
            acc.push(crate::util::text::lossy(data.subrange(p, q))),
        )
    }
}

/// Reads the strings of an LC_LINKER_OPTION command.
fn read_strings(data: &[u8], start: usize, end: u64, count: u32) -> (r: Option<Vec<Vec<u8>>>)
    ensures
        match r {
            Some(v) => strings_from(data@, start as int, end as int, count as nat, Seq::empty())
                == Some(bytes::views(v@)),
            None => strings_from(data@, start as int, end as int, count as nat, Seq::empty())
                is None,
        },
{
    let mut out: Vec<Vec<u8>> = Vec::new();
    let mut p: u64 = start as u64;
    let mut n: u32 = count;
    assert(bytes::views(out@) =~= Seq::<Seq<u8>>::empty());
    while n > 0
        invariant
            strings_from(data@, start as int, end as int, count as nat, Seq::empty())
                == strings_from(data@, p as int, end as int, n as nat, bytes::views(out@)),
        decreases n,
    {
        if p > end || end > data.len() as u64 {
            return None;
        }
        let window: &[u8] = vstd::slice::slice_subrange(data, 0, end as usize);
        assert(window@ =~= data@.take(end as int));
        let q: usize = bytes::find_byte(window, 0, p as usize);
        let ghost before = out@;
        out.push(
            crate::util::text::from_lossy(vstd::slice::slice_subrange(data, p as usize, q)),
        );
        assert(bytes::views(out@) =~= bytes::views(before).push(
            crate::util::text::lossy(data@.subrange(p as int, q as int)),
        ));
        if q as u64 == u64::MAX {
            // A table that fills the address space has no room for more.
            if n > 1 {
                proof {
                    assert(strings_from(
                        data@,
                        q + 1,
                        end as int,
                        (n - 1) as nat,
                        bytes::views(out@),
                    ) is None);
                }
                return None;
            }
            return Some(out);
        }
        p = q as u64 + 1;
        n -= 1;
    }
    Some(out)
}

/// One LC_DATA_IN_CODE entry.
pub open spec fn dice_at(data: Seq<u8>, p: int) -> (u32, u16, u16) {
    (bytes::u32_at(data, p), bytes::u16_at(data, p + 4), bytes::u16_at(data, p + 6))
}

/// The `n` LC_DATA_IN_CODE entries from `p` on.
pub open spec fn dices_at(data: Seq<u8>, p: int, n: int) -> Seq<(u32, u16, u16)> {
    Seq::new(n as nat, |i: int| dice_at(data, p + 8 * i))
}

/// `n` ULEB128 values from `pos` on, after those in `acc`, with the
/// position behind them.
pub open spec fn ulebs_from(data: Seq<u8>, pos: int, n: nat, acc: Seq<u64>) -> Option<
    (Seq<u64>, int),
>
    decreases n,
{
    if n == 0 {
        Some((acc, pos))
    } else {
        match super::uleb_at(data, pos) {
            Some((v, next)) => ulebs_from(data, next, (n - 1) as nat, acc.push(v)),
            None => None,
        }
    }
}

/// Reads `n` ULEB128 values.
fn read_ulebs(data: &[u8], start: usize, count: u64) -> (r: Option<(Vec<u64>, usize)>)
    requires
        start <= data.len(),
    ensures
        match r {
            Some((v, next)) => ulebs_from(data@, start as int, count as nat, Seq::empty()) == Some(
                (v@, next as int),
            ) && start <= next <= data.len(),
            None => ulebs_from(data@, start as int, count as nat, Seq::empty()) is None,
        },
{
    let mut out: Vec<u64> = Vec::new();
    let mut pos: usize = start;
    let mut n: u64 = count;
    while n > 0
        invariant
            start <= pos <= data.len(),
            ulebs_from(data@, start as int, count as nat, Seq::empty()) == ulebs_from(
                data@,
                pos as int,
                n as nat,
                out@,
            ),
        decreases n,
    {
        match super::try_uleb_at(data, pos) {
            Some((v, next)) => {
                out.push(v);
                pos = next;
                n -= 1;
            },
            None => return None,
        }
    }
    Some((out, pos))
}

/// The optimization hints from `pos` on, after those in `acc`: a stream of
/// ULEB128 values, each hint a kind, an argument count, then that many
/// instruction addresses. A zero kind ends the stream early.
pub open spec fn hints_from(data: Seq<u8>, pos: int, acc: Seq<(u8, Seq<u64>)>) -> Option<
    Seq<(u8, Seq<u64>)>,
>
    decreases data.len() - pos,
{
    if pos >= data.len() {
        Some(acc)
    } else {
        match super::uleb_at(data, pos) {
            None => None,
            Some((kind, p1)) => if kind == 0 {
                Some(acc)
            } else {
                match super::uleb_at(data, p1) {
                    None => None,
                    Some((count, p2)) => match ulebs_from(data, p2, count as nat, Seq::empty()) {
                        None => None,
                        Some((addrs, p3)) => if p3 <= pos || p3 > data.len() {
                            None
                        } else {
                            hints_from(data, p3, acc.push(((kind % 256) as u8, addrs)))
                        },
                    },
                }
            },
        }
    }
}

/// Reads the optimization hints.
fn read_hints(data: &[u8]) -> (r: Option<Vec<(u8, Vec<u64>)>>)
    ensures
        match r {
            Some(v) => hints_from(data@, 0, Seq::empty()) == Some(loh_views(v@)),
            None => hints_from(data@, 0, Seq::empty()) is None,
        },
{
    let mut out: Vec<(u8, Vec<u64>)> = Vec::new();
    let mut pos: usize = 0;
    assert(loh_views(out@) =~= Seq::<(u8, Seq<u64>)>::empty());
    while pos < data.len()
        invariant
            pos <= data.len(),
            hints_from(data@, 0, Seq::empty()) == hints_from(data@, pos as int, loh_views(out@)),
        decreases data.len() - pos,
    {
        let (kind, p1) = match super::try_uleb_at(data, pos) {
            Some(pair) => pair,
            None => return None,
        };
        if kind == 0 {
            return Some(out);
        }
        let (count, p2) = match super::try_uleb_at(data, p1) {
            Some(pair) => pair,
            None => return None,
        };
        let (addrs, p3) = match read_ulebs(data, p2, count) {
            Some(pair) => pair,
            None => return None,
        };
        let ghost before = out@;
        let ghost hint = ((kind % 256) as u8, addrs@);
        out.push(((kind % 256) as u8, addrs));
        assert(loh_views(out@) =~= loh_views(before).push(hint));
        pos = p3;
    }
    Some(out)
}

/// What the load command at `off` adds to `acc`.
pub open spec fn command_step(data: Seq<u8>, off: int, acc: CommandsView) -> Option<CommandsView> {
    let cmd = bytes::u32_at(data, off);
    let cmdsize = bytes::u32_at(data, off + 4);
    if cmd == LC_SEGMENT_64 {
        let n = bytes::u32_at(data, off + 64);
        if off + 72 > data.len() || off + 72 + 80 * n > data.len() {
            None
        } else {
            Some(
                CommandsView {
                    sect_hdrs: acc.sect_hdrs + sections_at(data, off + 72, n as int),
                    ..acc
                },
            )
        }
    } else if cmd == LC_SYMTAB {
        if off + 24 > data.len() {
            None
        } else {
            Some(
                CommandsView {
                    symtab: Some(
                        SymtabInfo {
                            symoff: bytes::u32_at(data, off + 8),
                            nsyms: bytes::u32_at(data, off + 12),
                            stroff: bytes::u32_at(data, off + 16),
                            strsize: bytes::u32_at(data, off + 20),
                        },
                    ),
                    ..acc
                },
            )
        }
    } else if cmd == LC_LINKER_OPTION {
        if off + 12 > data.len() {
            None
        } else {
            match strings_from(
                data,
                off + 12,
                off + cmdsize,
                bytes::u32_at(data, off + 8) as nat,
                Seq::empty(),
            ) {
                Some(strs) => Some(
                    CommandsView { linker_options: acc.linker_options.push(strs), ..acc },
                ),
                None => None,
            }
        }
    } else if cmd == LC_DATA_IN_CODE {
        let dataoff = bytes::u32_at(data, off + 8);
        let n = bytes::u32_at(data, off + 12) / 8;
        if off + 16 > data.len() || (n > 0 && dataoff + 8 * n > data.len()) {
            None
        } else {
            Some(
                CommandsView {
                    dice: acc.dice + dices_at(data, dataoff as int, n as int),
                    ..acc
                },
            )
        }
    } else if cmd == LC_LINKER_OPTIMIZATION_HINT {
        let dataoff = bytes::u32_at(data, off + 8);
        let datasize = bytes::u32_at(data, off + 12);
        if off + 16 > data.len() || dataoff + datasize > data.len() {
            None
        } else {
            match hints_from(
                data.subrange(dataoff as int, dataoff + datasize),
                0,
                Seq::empty(),
            ) {
                Some(hints) => Some(CommandsView { loh: acc.loh + hints, ..acc }),
                None => None,
            }
        }
    } else {
        Some(acc)
    }
}

/// What the `n` load commands from `off` on add to `acc`; `None` if the
/// file is too short for what they say.
pub open spec fn commands_from(data: Seq<u8>, off: int, n: nat, acc: CommandsView) -> Option<
    CommandsView,
>
    decreases n,
{
    if n == 0 {
        Some(acc)
    } else if off + 8 > data.len() {
        None
    } else {
        match command_step(data, off, acc) {
            Some(next) => commands_from(
                data,
                off + bytes::u32_at(data, off + 4),
                (n - 1) as nat,
                next,
            ),
            None => None,
        }
    }
}

/// Nothing said yet.
pub open spec fn no_commands() -> CommandsView {
    CommandsView {
        sect_hdrs: Seq::empty(),
        symtab: None,
        linker_options: Seq::empty(),
        dice: Seq::empty(),
        loh: Seq::empty(),
    }
}

/// Appends the section records of a segment command.
fn read_sections(data: &[u8], off: usize, n: u32, out: &mut Vec<MachSection>)
    requires
        off + 80 * n <= data.len(),
    ensures
        crate::arch::section_views(final(out)@) == crate::arch::section_views(old(out)@)
            + sections_at(data@, off as int, n as int),
{
    let mut i: u32 = 0;
    let ghost before = out@;
    assert(crate::arch::section_views(out@) =~= crate::arch::section_views(before) + sections_at(
        data@,
        off as int,
        0,
    ));
    while i < n
        invariant
            i <= n,
            off + 80 * n <= data.len(),
            crate::arch::section_views(out@) == crate::arch::section_views(before) + sections_at(
                data@,
                off as int,
                i as int,
            ),
        decreases n - i,
    {
        let ghost mid = out@;
        out.push(MachSection::read(data, off + 80 * (i as usize)));
        i += 1;
        proof {
            assert(crate::arch::section_views(out@) =~= crate::arch::section_views(mid).push(
                SectionView::at(data@, off + 80 * (i - 1)),
            ));
            assert(crate::arch::section_views(out@) =~= crate::arch::section_views(before)
                + sections_at(data@, off as int, i as int));
        }
    }
}

/// Appends the entries of an LC_DATA_IN_CODE command.
fn read_dices(data: &[u8], off: usize, n: u32, out: &mut Vec<(u32, u16, u16)>)
    requires
        n > 0 ==> off + 8 * n <= data.len(),
    ensures
        final(out)@ == old(out)@ + dices_at(data@, off as int, n as int),
{
    let mut i: u32 = 0;
    let ghost before = out@;
    assert(out@ =~= before + dices_at(data@, off as int, 0));
    while i < n
        invariant
            i <= n,
            n > 0 ==> off + 8 * n <= data.len(),
            out@ == before + dices_at(data@, off as int, i as int),
        decreases n - i,
    {
        let p: usize = off + 8 * (i as usize);
        out.push((bytes::get32(data, p), bytes::get16(data, p + 4), bytes::get16(data, p + 6)));
        i += 1;
        assert(out@ =~= before + dices_at(data@, off as int, i as int));
    }
}

/// Appends hints.
fn append_hints(out: &mut Vec<(u8, Vec<u64>)>, hints: Vec<(u8, Vec<u64>)>)
    ensures
        loh_views(final(out)@) == loh_views(old(out)@) + loh_views(hints@),
{
    let ghost before = out@;
    let ghost all = hints@;
    let mut hints = hints;
    out.append(&mut hints);
    assert(loh_views(out@) =~= loh_views(before) + loh_views(all));
}

/// Reads the load command at `off`.
fn read_command(data: &[u8], off: usize, acc: &mut Commands) -> (r: bool)
    requires
        off + 8 <= data.len(),
    ensures
        r ==> command_step(data@, off as int, old(acc)@) == Some(final(acc)@),
        !r ==> command_step(data@, off as int, old(acc)@) is None,
{
    let cmd: u32 = bytes::get32(data, off);
    let cmdsize: u32 = bytes::get32(data, off + 4);
    let left: usize = data.len() - off;
    if cmd == LC_SEGMENT_64 {
        if left < 72 {
            return false;
        }
        let n: u32 = bytes::get32(data, off + 64);
        if ((left - 72) / 80) < n as usize {
            return false;
        }
        read_sections(data, off + 72, n, &mut acc.sect_hdrs);
        assert(acc@ =~= (CommandsView {
            sect_hdrs: old(acc)@.sect_hdrs + sections_at(data@, off + 72, n as int),
            ..old(acc)@
        }));
        true
    } else if cmd == LC_SYMTAB {
        if left < 24 {
            return false;
        }
        acc.symtab = Some(
            SymtabInfo {
                symoff: bytes::get32(data, off + 8),
                nsyms: bytes::get32(data, off + 12),
                stroff: bytes::get32(data, off + 16),
                strsize: bytes::get32(data, off + 20),
            },
        );
        true
    } else if cmd == LC_LINKER_OPTION {
        if left < 12 {
            return false;
        }
        let count: u32 = bytes::get32(data, off + 8);
        if cmdsize as u64 > u64::MAX - off as u64 {
            assert(off + cmdsize > data.len());
            if count == 0 {
                let ghost before = acc.linker_options@;
                let none: Vec<Vec<u8>> = Vec::new();
                assert(bytes::views(none@) =~= Seq::<Seq<u8>>::empty());
                acc.linker_options.push(none);
                assert(option_views(acc.linker_options@) =~= option_views(before).push(
                    Seq::empty(),
                ));
                return true;
            }
            return false;
        }
        match read_strings(data, off + 12, off as u64 + cmdsize as u64, count) {
            Some(strs) => {
                let ghost before = acc.linker_options@;
                let ghost s = bytes::views(strs@);
                acc.linker_options.push(strs);
                assert(option_views(acc.linker_options@) =~= option_views(before).push(s));
                true
            },
            None => false,
        }
    } else if cmd == LC_DATA_IN_CODE {
        if left < 16 {
            return false;
        }
        let dataoff: u32 = bytes::get32(data, off + 8);
        let n: u32 = bytes::get32(data, off + 12) / 8;
        if n > 0 && dataoff as u64 + 8 * n as u64 > data.len() as u64 {
            return false;
        }
        read_dices(data, dataoff as usize, n, &mut acc.dice);
        true
    } else if cmd == LC_LINKER_OPTIMIZATION_HINT {
        if left < 16 {
            return false;
        }
        let dataoff: u32 = bytes::get32(data, off + 8);
        let datasize: u32 = bytes::get32(data, off + 12);
        let end: u64 = dataoff as u64 + datasize as u64;
        if end > data.len() as u64 {
            return false;
        }
        let payload: &[u8] = vstd::slice::slice_subrange(data, dataoff as usize, end as usize);
        match read_hints(payload) {
            Some(hints) => {
                append_hints(&mut acc.loh, hints);
                true
            },
            None => false,
        }
    } else {
        true
    }
}

/// Reads the `n` load commands from `start` on.
pub fn read_commands(data: &[u8], start: usize, count: u32) -> (r: Option<Commands>)
    ensures
        match r {
            Some(c) => commands_from(data@, start as int, count as nat, no_commands()) == Some(c@),
            None => commands_from(data@, start as int, count as nat, no_commands()) is None,
        },
{
    let mut acc = Commands {
        sect_hdrs: Vec::new(),
        symtab: None,
        linker_options: Vec::new(),
        dice: Vec::new(),
        loh: Vec::new(),
    };
    let mut off: u128 = start as u128;
    let mut n: u32 = count;
    assert(acc@ =~= no_commands());
    while n > 0
        invariant
            n <= count,
            off <= start + (count - n) * 0x1_0000_0000,
            commands_from(data@, start as int, count as nat, no_commands()) == commands_from(
                data@,
                off as int,
                n as nat,
                acc@,
            ),
        decreases n,
    {
        if off + 8 > data.len() as u128 {
            return None;
        }
        let cmdsize: u32 = bytes::get32(data, off as usize + 4);
        if !read_command(data, off as usize, &mut acc) {
            return None;
        }
        off = off + cmdsize as u128;
        n -= 1;
    }
    Some(acc)
}

} // verus!
