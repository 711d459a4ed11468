//! Chained fixups.
//!
//! Instead of opcode streams, chained fixups store, per page of each
//! segment, the offset of the first fixup. Each 64-bit fixup word in the
//! data itself then encodes its target, a rebase value or an import ordinal,
//! and the distance to the next fixup in the page: a chain that dyld walks.
use super::fixups::Fixup;
use crate::arch::Arch;
use crate::context::Context;
use crate::macho::consts::{
    DYLD_CHAINED_IMPORT, DYLD_CHAINED_IMPORT_ADDEND, DYLD_CHAINED_IMPORT_ADDEND64,
    DYLD_CHAINED_PTR_64, DYLD_CHAINED_PTR_START_NONE,
};
use crate::output_chunks::header::{OutputSegment, SegmentView};
use crate::symbol::{Origin, Symbol};
use crate::util::{self, bytes, order};
use vstd::prelude::*;

verus! {

/// Why chained fixups cannot be written.
#[derive(Clone, Copy, Debug, PartialEq, Eq, Structural)]
pub enum ChainError {
    /// A fixup at this address is not at a multiple of four bytes.
    Unaligned(u64),
    /// A segment has more pages than its record can count.
    TooManyPages,
    /// The payload does not fit in its 32-bit fields.
    TooLarge,
    /// An import comes from no library.
    NoLibrary(u32),
    /// A fixup is not in the import table.
    NoImport,
    /// The address that a fixup slides cannot be encoded.
    Unencodable(u64),
    /// A fixup is outside the output file.
    OutOfBounds(u64),
}

/// The largest addend that a chained bind can carry inline; anything bigger
/// goes into the import table.
pub const MAX_INLINE_ADDEND: u64 = 255;

/// The addend of a fixup's entry in the import table.
pub open spec fn table_addend(addend: i64) -> u64 {
    let a = bytes::word64(addend as int);
    if a <= MAX_INLINE_ADDEND {
        0
    } else {
        a
    }
}

fn find_table_addend(addend: i64) -> (r: u64)
    ensures
        r == table_addend(addend),
{
    let a: u64 = bytes::from_signed64(addend);
    if a <= MAX_INLINE_ADDEND {
        0
    } else {
        a
    }
}

/// The import table entry that a fixup uses: its symbol and its addend.
pub open spec fn entry_key(f: Fixup) -> (u64, u64, u64) {
    (f.sym->0 as u64, table_addend(f.addend), 0)
}

/// The entries that the first `n` fixups use.
pub open spec fn used_to(fixups: Seq<Fixup>, n: int) -> Seq<(u64, u64, u64)>
    decreases n,
{
    if n <= 0 {
        Seq::empty()
    } else if fixups[n - 1].sym is Some {
        used_to(fixups, n - 1).push(entry_key(fixups[n - 1]))
    } else {
        used_to(fixups, n - 1)
    }
}

/// The first `n` entries of a sorted list, without repeats.
pub open spec fn distinct_to(s: Seq<(u64, u64, u64)>, n: int) -> Seq<(u64, u64, u64)>
    decreases n,
{
    if n <= 0 {
        Seq::empty()
    } else if n > 1 && s[n - 1] == s[n - 2] {
        distinct_to(s, n - 1)
    } else {
        distinct_to(s, n - 1).push(s[n - 1])
    }
}

/// The import table: each entry that a fixup uses, once, sorted.
pub open spec fn imports_of(fixups: Seq<Fixup>) -> Seq<(u64, u64, u64)> {
    let used = used_to(fixups, fixups.len() as int);
    let sorted = order::stable_order_of(used).map_values(|i: usize| used[i as int]);
    distinct_to(sorted, sorted.len() as int)
}

/// Lists the import table.
pub fn list_imports(fixups: &Vec<Fixup>) -> (r: Vec<(u64, u64, u64)>)
    ensures
        r@ == imports_of(fixups@),
{
    let mut used: Vec<(u64, u64, u64)> = Vec::new();
    assert(used@ =~= Seq::empty());
    let mut n: usize = 0;
    while n < fixups.len()
        invariant
            n <= fixups.len(),
            used@ == used_to(fixups@, n as int),
        decreases fixups.len() - n,
    {
        if let Some(id) = fixups[n].sym {
            used.push((id as u64, find_table_addend(fixups[n].addend), 0));
        }
        n += 1;
    }
    let at: Vec<usize> = order::stable_order(used.as_slice());
    let ghost sorted = order::stable_order_of(used@).map_values(|i: usize| used@[i as int]);
    let mut r: Vec<(u64, u64, u64)> = Vec::new();
    assert(r@ =~= Seq::empty());
    let mut k: usize = 0;
    while k < at.len()
        invariant
            k <= at.len(),
            forall|i: int| 0 <= i < at.len() ==> (#[trigger] at[i]) < used.len(),
            at@ == order::stable_order_of(used@),
            sorted == order::stable_order_of(used@).map_values(|i: usize| used@[i as int]),
            r@ == distinct_to(sorted, k as int),
        decreases at.len() - k,
    {
        let e: (u64, u64, u64) = used[at[k]];
        assert(sorted[k as int] == e);
        let again: bool = k > 0 && {
            let p: (u64, u64, u64) = used[at[k - 1]];
            p.0 == e.0 && p.1 == e.1 && p.2 == e.2
        };
        proof {
            if k > 0 {
                assert(sorted[k - 1] == used[at[k - 1] as int]);
            }
        }
        if !again {
            r.push(e);
        }
        k += 1;
    }
    assert(sorted.len() == at.len());
    r
}

/// The larger addend of the first `n` entries.
pub open spec fn max_addend(d: Seq<(u64, u64, u64)>, n: int) -> u64
    decreases n,
{
    if n <= 0 {
        0
    } else if d[n - 1].1 > max_addend(d, n - 1) {
        d[n - 1].1
    } else {
        max_addend(d, n - 1)
    }
}

/// The smallest import format that holds all addends.
pub open spec fn import_format(d: Seq<(u64, u64, u64)>) -> u32 {
    let m = max_addend(d, d.len() as int);
    if m == 0 {
        DYLD_CHAINED_IMPORT
    } else if m <= u32::MAX {
        DYLD_CHAINED_IMPORT_ADDEND
    } else {
        DYLD_CHAINED_IMPORT_ADDEND64
    }
}

fn find_import_format(d: &Vec<(u64, u64, u64)>) -> (r: u32)
    ensures
        r == import_format(d@),
{
    let mut m: u64 = 0;
    let mut n: usize = 0;
    while n < d.len()
        invariant
            n <= d.len(),
            m == max_addend(d@, n as int),
        decreases d.len() - n,
    {
        if d[n].1 > m {
            m = d[n].1;
        }
        n += 1;
    }
    if m == 0 {
        DYLD_CHAINED_IMPORT
    } else if m <= u32::MAX as u64 {
        DYLD_CHAINED_IMPORT_ADDEND
    } else {
        DYLD_CHAINED_IMPORT_ADDEND64
    }
}

/// True for the last entry of its symbol.
pub open spec fn is_last(d: Seq<(u64, u64, u64)>, i: int) -> bool {
    i + 1 == d.len() || d[i + 1].0 != d[i].0
}

/// The names of the symbols whose last entry is among the first `n`.
pub open spec fn import_names(syms: Seq<Symbol>, d: Seq<(u64, u64, u64)>, n: int) -> Seq<u8>
    decreases n,
{
    if n <= 0 {
        Seq::empty()
    } else if is_last(d, n - 1) {
        import_names(syms, d, n - 1) + syms[d[n - 1].0 as int].name@.push(0)
    } else {
        import_names(syms, d, n - 1)
    }
}

/// An entry of the import table: the library's ordinal, whether the import
/// may be missing, where its name is, and its addend if the format has one.
pub open spec fn import_entry(ctx: Context, d: Seq<(u64, u64, u64)>, format: u32, i: int) -> Seq<
    u8,
> {
    let s = ctx.inputs.symtab.syms[d[i].0 as int];
    let off = import_names(ctx.inputs.symtab.syms@, d, i).len();
    let weak: int = if s.flags.is_weak_ref {
        1
    } else {
        0
    };
    if format == DYLD_CHAINED_IMPORT_ADDEND64 {
        bytes::le64(
            (ctx.import_ordinal(s.file) % 0x1_0000 + weak * 0x1_0000 + off
                * 0x1_0000_0000) as u64,
        ) + bytes::le64(d[i].1)
    } else {
        let word = bytes::le32(
            (ctx.import_ordinal(s.file) % 0x100 + weak * 0x100 + off * 0x200) as u32,
        );
        if format == DYLD_CHAINED_IMPORT {
            word
        } else {
            word + bytes::le32(d[i].1 as u32)
        }
    }
}

/// The first `n` entries of the import table.
pub open spec fn import_entries(ctx: Context, d: Seq<(u64, u64, u64)>, format: u32, n: int) -> Seq<
    u8,
>
    decreases n,
{
    if n <= 0 {
        Seq::empty()
    } else {
        import_entries(ctx, d, format, n - 1) + import_entry(ctx, d, format, n - 1)
    }
}

/// The number of leading fixups below an address.
pub open spec fn below(fixups: Seq<Fixup>, addr: int, n: int) -> int
    decreases n,
{
    if n <= 0 {
        0
    } else if fixups[n - 1].addr < addr {
        n
    } else {
        below(fixups, addr, n - 1)
    }
}

/// Counts the leading fixups below an address.
fn count_below(fixups: &Vec<Fixup>, addr: u128) -> (r: usize)
    ensures
        r == below(fixups@, addr as int, fixups.len() as int),
        r <= fixups.len(),
{
    let mut n: usize = fixups.len();
    while n > 0 && fixups[n - 1].addr as u128 >= addr
        invariant
            n <= fixups.len(),
            below(fixups@, addr as int, n as int) == below(
                fixups@,
                addr as int,
                fixups.len() as int,
            ),
        decreases n,
    {
        n -= 1;
    }
    n
}

/// The fixups of a segment, as a range.
pub open spec fn range_of(fixups: Seq<Fixup>, seg: SegmentView) -> (int, int) {
    (
        below(fixups, seg.cmd.vmaddr as int, fixups.len() as int),
        below(fixups, seg.cmd.vmaddr + seg.cmd.vmsize, fixups.len() as int),
    )
}

fn find_range(fixups: &Vec<Fixup>, seg: &OutputSegment) -> (r: (usize, usize))
    ensures
        range_of(fixups@, seg@) == (r.0 as int, r.1 as int),
        r.0 <= fixups.len(),
        r.1 <= fixups.len(),
{
    let lo: usize = count_below(fixups, seg.cmd.vmaddr as u128);
    let hi: usize = count_below(fixups, seg.cmd.vmaddr as u128 + seg.cmd.vmsize as u128);
    (lo, hi)
}

/// The offset in its page of the first fixup of a page, among those of a
/// range.
pub open spec fn page_start(fixups: Seq<Fixup>, lo: int, hi: int, page_addr: int, page: int) -> u16
    decreases hi - lo,
{
    if lo >= hi {
        DYLD_CHAINED_PTR_START_NONE
    } else if fixups[lo].addr < page_addr {
        page_start(fixups, lo + 1, hi, page_addr, page)
    } else if fixups[lo].addr < page_addr + page {
        (fixups[lo].addr as int % page) as u16
    } else {
        DYLD_CHAINED_PTR_START_NONE
    }
}

fn find_page_start(fixups: &Vec<Fixup>, lo: usize, hi: usize, page_addr: u128, page: u64) -> (r:
    u16)
    requires
        hi <= fixups.len(),
        0 < page <= 0x4000,
    ensures
        r == page_start(fixups@, lo as int, hi as int, page_addr as int, page as int),
{
    let mut i: usize = lo;
    while i < hi && (fixups[i].addr as u128) < page_addr
        invariant
            hi <= fixups.len(),
            lo <= i,
            i <= hi || i == lo,
            page_start(fixups@, i as int, hi as int, page_addr as int, page as int) == page_start(
                fixups@,
                lo as int,
                hi as int,
                page_addr as int,
                page as int,
            ),
        decreases hi - i,
    {
        i += 1;
    }
    if i < hi && (fixups[i].addr as u128) - page_addr < page as u128 {
        (fixups[i].addr % page) as u16
    } else {
        DYLD_CHAINED_PTR_START_NONE
    }
}

/// The page starts of the first `n` pages of a segment.
pub open spec fn page_starts(
    fixups: Seq<Fixup>,
    lo: int,
    hi: int,
    vmaddr: u64,
    page: int,
    n: int,
) -> Seq<u8>
    decreases n,
{
    if n <= 0 {
        Seq::empty()
    } else {
        page_starts(fixups, lo, hi, vmaddr, page, n - 1) + bytes::le16(
            page_start(fixups, lo, hi, vmaddr + (n - 1) * page, page),
        )
    }
}

/// The number of pages up to the last fixup of a segment.
pub open spec fn page_count(last: u64, vmaddr: u64, page: int) -> int {
    (last - vmaddr) / page + 1
}

/// A segment's record: its size, the page size and pointer format, the
/// segment's offset in the image, and its page starts.
pub open spec fn segment_record(
    fixups: Seq<Fixup>,
    seg: SegmentView,
    page: int,
    base: u64,
) -> Seq<u8> {
    let (lo, hi) = range_of(fixups, seg);
    let n = page_count(fixups[hi - 1].addr, seg.cmd.vmaddr, page);
    bytes::padded8(
        bytes::le32(util::aligned(22 + 2 * n, 8) as u32) + bytes::le16(page as u16) + bytes::le16(
            DYLD_CHAINED_PTR_64,
        ) + bytes::le64(bytes::word64(seg.cmd.vmaddr - base)) + bytes::le32(0) + bytes::le16(
            n as u16,
        ) + page_starts(fixups, lo, hi, seg.cmd.vmaddr, page, n),
    )
}

/// True for a segment with fixups.
pub open spec fn has_fixups(fixups: Seq<Fixup>, seg: SegmentView) -> bool {
    range_of(fixups, seg).0 < range_of(fixups, seg).1
}

/// The records of the first `n` segments. `None` when one has too many
/// pages.
pub open spec fn records_to(
    fixups: Seq<Fixup>,
    segs: Seq<SegmentView>,
    page: int,
    base: u64,
    n: int,
) -> Option<Seq<u8>>
    decreases n,
{
    if n <= 0 {
        Some(Seq::empty())
    } else {
        match records_to(fixups, segs, page, base, n - 1) {
            None => None,
            Some(r) => {
                let s = segs[n - 1];
                if !has_fixups(fixups, s) {
                    Some(r)
                } else if page_count(
                    fixups[range_of(fixups, s).1 - 1].addr,
                    s.cmd.vmaddr,
                    page,
                ) > u16::MAX {
                    None
                } else {
                    Some(r + segment_record(fixups, s, page, base))
                }
            },
        }
    }
}

/// The size of the table of the segments' records.
pub open spec fn starts_size(nsegs: int) -> int {
    util::aligned(4 + 4 * nsegs, 8)
}

/// Where the record of each of the first `n` segments is, 0 for a segment
/// without fixups.
pub open spec fn record_offsets(
    fixups: Seq<Fixup>,
    segs: Seq<SegmentView>,
    page: int,
    base: u64,
    n: int,
) -> Seq<u32>
    decreases n,
{
    if n <= 0 {
        Seq::empty()
    } else {
        record_offsets(fixups, segs, page, base, n - 1).push(
            if has_fixups(fixups, segs[n - 1]) {
                (starts_size(segs.len() as int) + records_to(
                    fixups,
                    segs,
                    page,
                    base,
                    n - 1,
                )->0.len()) as u32
            } else {
                0
            },
        )
    }
}

/// The first fixup that is not at a multiple of four bytes.
pub open spec fn first_unaligned(fixups: Seq<Fixup>, i: int) -> Option<u64>
    decreases fixups.len() - i,
{
    if i >= fixups.len() {
        None
    } else if fixups[i].addr % 4 != 0 {
        Some(fixups[i].addr)
    } else {
        first_unaligned(fixups, i + 1)
    }
}

/// The first import that comes from no library.
pub open spec fn first_stray(syms: Seq<Symbol>, d: Seq<(u64, u64, u64)>, i: int) -> Option<u32>
    decreases d.len() - i,
{
    if i >= d.len() {
        None
    } else if !(syms[d[i].0 as int].defined_by() is Dylib) {
        Some(d[i].0 as u32)
    } else {
        first_stray(syms, d, i + 1)
    }
}

/// The payload's bytes, from its parts.
pub open spec fn payload(
    nsegs: int,
    offs: Seq<u32>,
    records: Seq<u8>,
    nimports: int,
    format: u32,
    entries: Seq<u8>,
    names: Seq<u8>,
) -> Seq<u8> {
    let imports_at = 32 + starts_size(nsegs) + records.len();
    bytes::padded8(
        bytes::le32s(
            seq![
                0,
                32,
                imports_at as u32,
                (imports_at + entries.len()) as u32,
                nimports as u32,
                format,
                0,
                0,
            ],
        ) + bytes::padded8(bytes::le32s(seq![nsegs as u32] + offs)) + records + entries + names,
    )
}

/// The LC_DYLD_CHAINED_FIXUPS payload for sorted fixups: where each page's
/// first fixup is, and the imports.
pub open spec fn chained_fixups<E: Arch>(ctx: Context, fixups: Seq<Fixup>) -> Result<
    Seq<u8>,
    ChainError,
> {
    let segs = crate::output_chunks::header::segment_views(ctx.layout.segments@);
    let n = segs.len() as int;
    let page = E::info().page_size as int;
    let base = ctx.args.sw.pagezero_size;
    let d = imports_of(fixups);
    let format = import_format(d);
    if fixups.len() == 0 {
        Ok(Seq::empty())
    } else if first_unaligned(fixups, 0) is Some {
        Err(ChainError::Unaligned(first_unaligned(fixups, 0)->0))
    } else if first_stray(ctx.inputs.symtab.syms@, d, 0) is Some {
        Err(ChainError::NoLibrary(first_stray(ctx.inputs.symtab.syms@, d, 0)->0))
    } else {
        match records_to(fixups, segs, page, base, n) {
            None => Err(ChainError::TooManyPages),
            Some(records) => {
                let names = import_names(ctx.inputs.symtab.syms@, d, d.len() as int);
                let entries = import_entries(ctx, d, format, d.len() as int);
                if 32 + starts_size(n) + records.len() + entries.len() > u32::MAX || names.len()
                    >= (if format == DYLD_CHAINED_IMPORT_ADDEND64 {
                    0x1_0000_0000int
                } else {
                    0x80_0000
                }) {
                    Err(ChainError::TooLarge)
                } else {
                    Ok(
                        payload(
                            n,
                            record_offsets(fixups, segs, page, base, n),
                            records,
                            d.len() as int,
                            format,
                            entries,
                            names,
                        ),
                    )
                }
            },
        }
    }
}

fn find_unaligned(fixups: &Vec<Fixup>) -> (r: Option<u64>)
    ensures
        r == first_unaligned(fixups@, 0),
{
    let mut i: usize = 0;
    while i < fixups.len()
        invariant
            i <= fixups.len(),
            first_unaligned(fixups@, i as int) == first_unaligned(fixups@, 0),
        decreases fixups.len() - i,
    {
        if fixups[i].addr % 4 != 0 {
            return Some(fixups[i].addr);
        }
        i += 1;
    }
    None
}

fn find_stray(syms: &Vec<Symbol>, d: &Vec<(u64, u64, u64)>) -> (r: Option<u32>)
    requires
        forall|i: int| 0 <= i < d.len() ==> (#[trigger] d[i]).0 < syms.len(),
    ensures
        r == first_stray(syms@, d@, 0),
        r is None ==> forall|i: int|
            0 <= i < d.len() ==> syms[(#[trigger] d[i]).0 as int].defined_by() is Dylib,
{
    let mut i: usize = 0;
    while i < d.len()
        invariant
            i <= d.len(),
            forall|i: int| 0 <= i < d.len() ==> (#[trigger] d[i]).0 < syms.len(),
            first_stray(syms@, d@, i as int) == first_stray(syms@, d@, 0),
            forall|k: int|
                0 <= k < i ==> syms[(#[trigger] d[k]).0 as int].defined_by() is Dylib,
        decreases d.len() - i,
    {
        let lib: bool = match syms[d[i].0 as usize].origin() {
            Origin::Dylib(_) => true,
            _ => false,
        };
        if !lib {
            return Some(d[i].0 as u32);
        }
        i += 1;
    }
    None
}

proof fn lemma_below(fixups: Seq<Fixup>, addr: int, n: int)
    requires
        n <= fixups.len(),
    ensures
        0 <= below(fixups, addr, n),
        n >= 0 ==> below(fixups, addr, n) <= n,
        below(fixups, addr, n) > 0 ==> fixups[below(fixups, addr, n) - 1].addr < addr,
        forall|i: int|
            below(fixups, addr, n) <= i < n ==> (#[trigger] fixups[i]).addr >= addr,
    decreases n,
{
    if n > 0 && fixups[n - 1].addr >= addr {
        lemma_below(fixups, addr, n - 1);
    }
}

/// Encodes a segment's record. `None` when it has too many pages.
fn encode_record(fixups: &Vec<Fixup>, seg: &OutputSegment, page: u64, base: u64) -> (r: Option<
    Vec<u8>,
>)
    requires
        0 < page <= 0x4000,
        has_fixups(fixups@, seg@),
    ensures
        ({
            let last = fixups[range_of(fixups@, seg@).1 - 1].addr;
            match r {
                Some(b) => page_count(last, seg.cmd.vmaddr, page as int) <= u16::MAX && b@
                    == segment_record(fixups@, seg@, page as int, base),
                None => page_count(last, seg.cmd.vmaddr, page as int) > u16::MAX,
            }
        }),
{
    let (lo, hi): (usize, usize) = find_range(fixups, seg);
    let vmaddr: u64 = seg.cmd.vmaddr;
    proof {
        lemma_below(fixups@, vmaddr as int, fixups.len() as int);
        lemma_below(fixups@, vmaddr + seg.cmd.vmsize, fixups.len() as int);
        assert(fixups[hi - 1].addr >= vmaddr);
    }
    let pages: u64 = (fixups[hi - 1].addr - vmaddr) / page;
    if pages >= u16::MAX as u64 {
        return None;
    }
    let n: u64 = pages + 1;
    let mut buf: Vec<u8> = Vec::new();
    bytes::push32(&mut buf, util::align_to(22 + 2 * n, 8) as u32);
    bytes::push16(&mut buf, page as u16);
    bytes::push16(&mut buf, DYLD_CHAINED_PTR_64);
    bytes::push64(&mut buf, bytes::distance(vmaddr, base));
    bytes::push32(&mut buf, 0);
    bytes::push16(&mut buf, n as u16);
    let ghost head = buf@;
    assert(head + Seq::<u8>::empty() =~= head);
    let mut i: u64 = 0;
    while i < n
        invariant
            i <= n,
            n <= u16::MAX,
            hi <= fixups.len(),
            0 < page <= 0x4000,
            buf@ == head + page_starts(
                fixups@,
                lo as int,
                hi as int,
                vmaddr,
                page as int,
                i as int,
            ),
        decreases n - i,
    {
        assert(i * page <= 0xffff * 0x4000) by (nonlinear_arith)
            requires
                i <= 0xffff,
                page <= 0x4000,
        ;
        let at: u128 = vmaddr as u128 + (i * page) as u128;
        let start: u16 = find_page_start(fixups, lo, hi, at, page);
        bytes::push16(&mut buf, start);
        proof {
            bytes::lemma_assoc(
                head,
                page_starts(fixups@, lo as int, hi as int, vmaddr, page as int, i as int),
                bytes::le16(start),
            );
        }
        i += 1;
    }
    bytes::pad8(&mut buf);
    assert(buf@ =~= segment_record(fixups@, seg@, page as int, base));
    Some(buf)
}

/// The records of segments, and where each is.
struct Records {
    bytes: Vec<u8>,
    offs: Vec<u32>,
}

proof fn lemma_records_none(
    fixups: Seq<Fixup>,
    segs: Seq<SegmentView>,
    page: int,
    base: u64,
    a: int,
    b: int,
)
    requires
        a <= b,
        records_to(fixups, segs, page, base, a) is None,
    ensures
        records_to(fixups, segs, page, base, b) is None,
    decreases b - a,
{
    if a < b && b > 0 {
        lemma_records_none(fixups, segs, page, base, a, b - 1);
    }
}

/// Encodes the records of all segments.
fn encode_records(fixups: &Vec<Fixup>, segs: &Vec<OutputSegment>, page: u64, base: u64) -> (r:
    Option<Records>)
    requires
        0 < page <= 0x4000,
        segs.len() <= 0x1000_0000,
    ensures
        ({
            let sv = crate::output_chunks::header::segment_views(segs@);
            let want = records_to(fixups@, sv, page as int, base, sv.len() as int);
            match r {
                Some(v) => want == Some(v.bytes@) && v.offs@ == record_offsets(
                    fixups@,
                    sv,
                    page as int,
                    base,
                    sv.len() as int,
                ) && v.offs.len() == segs.len(),
                None => want is None,
            }
        }),
{
    let ghost sv = crate::output_chunks::header::segment_views(segs@);
    let start: u64 = util::align_to(4 + 4 * segs.len() as u64, 8);
    proof {
        util::lemma_aligned(4 + 4 * segs.len(), 8);
    }
    let mut out: Vec<u8> = Vec::new();
    let mut offs: Vec<u32> = Vec::new();
    assert(out@ =~= Seq::empty());
    assert(offs@ =~= Seq::empty());
    while offs.len() < segs.len()
        invariant
            0 < page <= 0x4000,
            segs.len() <= 0x1000_0000,
            sv == crate::output_chunks::header::segment_views(segs@),
            sv.len() == segs.len(),
            start == starts_size(sv.len() as int),
            start <= 0x4000_000c,
            offs.len() <= segs.len(),
            records_to(fixups@, sv, page as int, base, offs.len() as int) == Some(out@),
            offs@ == record_offsets(
                fixups@,
                sv,
                page as int,
                base,
                offs.len() as int,
            ),
        decreases segs.len() - offs.len(),
    {
        let i: usize = offs.len();
        assert(sv[i as int] == segs[i as int]@);
        let (lo, hi): (usize, usize) = find_range(fixups, &segs[i]);
        if lo < hi {
            let at: u128 = start as u128 + out.len() as u128;
            offs.push(at as u32);
            match encode_record(fixups, &segs[i], page, base) {
                Some(b) => {
                    bytes::append(&mut out, b.as_slice());
                },
                None => {
                    proof {
                        lemma_records_none(
                            fixups@,
                            sv,
                            page as int,
                            base,
                            i + 1,
                            sv.len() as int,
                        );
                    }
                    return None;
                },
            }
        } else {
            offs.push(0);
        }
    }
    Some(Records { bytes: out, offs })
}

/// True when the entries' symbols exist.
pub open spec fn entries_exist(ctx: Context, d: Seq<(u64, u64, u64)>) -> bool {
    forall|i: int| 0 <= i < d.len() ==> (#[trigger] d[i]).0 < ctx.inputs.symtab.syms.len()
}

proof fn lemma_used_exist(ctx: Context, fixups: Seq<Fixup>, n: int)
    requires
        n <= fixups.len(),
        super::fixups::imports_exist(ctx, fixups),
    ensures
        entries_exist(ctx, used_to(fixups, n)),
        n >= 0 ==> used_to(fixups, n).len() <= n,
    decreases n,
{
    if n > 0 {
        lemma_used_exist(ctx, fixups, n - 1);
        assert(fixups[n - 1].sym matches Some(id) ==> id < ctx.inputs.symtab.syms.len());
    }
}

proof fn lemma_distinct_exist(ctx: Context, s: Seq<(u64, u64, u64)>, n: int)
    requires
        n <= s.len(),
        entries_exist(ctx, s),
    ensures
        entries_exist(ctx, distinct_to(s, n)),
    decreases n,
{
    if n > 0 {
        lemma_distinct_exist(ctx, s, n - 1);
        assert(s[n - 1].0 < ctx.inputs.symtab.syms.len());
    }
}

/// The symbols of the import table exist.
pub proof fn lemma_imports_exist(ctx: Context, fixups: Seq<Fixup>)
    requires
        fixups.len() <= usize::MAX,
        super::fixups::imports_exist(ctx, fixups),
    ensures
        entries_exist(ctx, imports_of(fixups)),
{
    let used = used_to(fixups, fixups.len() as int);
    lemma_used_exist(ctx, fixups, fixups.len() as int);
    order::lemma_stable_order_exists(used);
    let sorted = order::stable_order_of(used).map_values(|i: usize| used[i as int]);
    assert forall|i: int| 0 <= i < sorted.len() implies (#[trigger] sorted[i]).0
        < ctx.inputs.symtab.syms.len() by {
        let k = order::stable_order_of(used)[i];
        assert(sorted[i] == used[k as int]);
    }
    lemma_distinct_exist(ctx, sorted, sorted.len() as int);
}

/// The import table's entries and names.
struct Imports {
    entries: Vec<u8>,
    names: Vec<u8>,
}

/// The low byte of an ordinal.
fn low_byte(o: i64) -> (r: u64)
    requires
        i32::MIN <= o <= i32::MAX,
    ensures
        r == o as int % 0x100,
{
    let up: u64 = (o + 0x1_0000_0000) as u64;
    up % 0x100
}

/// The low half word of an ordinal.
fn low_half(o: i64) -> (r: u64)
    requires
        i32::MIN <= o <= i32::MAX,
    ensures
        r == o as int % 0x1_0000,
{
    let up: u64 = (o + 0x1_0000_0000) as u64;
    up % 0x1_0000
}

/// The ordinal of an import's library.
fn find_ordinal(ctx: &Context, dylib: u32) -> (r: i64)
    requires
        dylib == crate::input_sections::UNSET || dylib < ctx.dylibs.len(),
    ensures
        r == ctx.import_ordinal(dylib),
        i32::MIN <= r <= i32::MAX,
{
    let ordinal: i32 = ctx.bind_ordinal(dylib);
    if ordinal == crate::macho::consts::BIND_SPECIAL_DYLIB_MAIN_EXECUTABLE {
        -1
    } else {
        ordinal as i64
    }
}

proof fn lemma_names_grow(syms: Seq<Symbol>, d: Seq<(u64, u64, u64)>, a: int, b: int)
    requires
        a <= b,
    ensures
        import_names(syms, d, a).len() <= import_names(syms, d, b).len(),
    decreases b - a,
{
    if a < b && b > 0 {
        lemma_names_grow(syms, d, a, b - 1);
    }
}

/// The largest length of the names that a format can address, plus one.
fn names_limit(format: u32) -> (r: u64)
    ensures
        r == (if format == DYLD_CHAINED_IMPORT_ADDEND64 {
            0x1_0000_0000int
        } else {
            0x80_0000
        }),
{
    if format == DYLD_CHAINED_IMPORT_ADDEND64 {
        0x1_0000_0000
    } else {
        0x80_0000
    }
}

/// Encodes one entry of the import table.
fn push_import(
    ctx: &Context,
    d: &Vec<(u64, u64, u64)>,
    format: u32,
    i: usize,
    off: u64,
    buf: &mut Vec<u8>,
)
    requires
        ctx.wf(),
        i < d.len(),
        entries_exist(*ctx, d@),
        ctx.inputs.symtab.syms[d[i as int].0 as int].defined_by() is Dylib,
        off == import_names(ctx.inputs.symtab.syms@, d@, i as int).len(),
        off < (if format == DYLD_CHAINED_IMPORT_ADDEND64 {
            0x1_0000_0000int
        } else {
            0x80_0000
        }),
    ensures
        final(buf)@ == old(buf)@ + import_entry(*ctx, d@, format, i as int),
{
    let ghost start = buf@;
    assert(d@[i as int].0 < ctx.inputs.symtab.syms.len());
    let s: &Symbol = &ctx.inputs.symtab.syms[d[i].0 as usize];
    proof {
        assert(ctx.sym_ok(*s));
    }
    let weak: u64 = if s.flags.is_weak_ref {
        1
    } else {
        0
    };
    if format == DYLD_CHAINED_IMPORT_ADDEND64 {
        let o: u64 = low_half(find_ordinal(ctx, s.file));
        bytes::push64(buf, o + weak * 0x1_0000 + off * 0x1_0000_0000);
        bytes::push64(buf, d[i].1);
    } else {
        let o: u64 = low_byte(find_ordinal(ctx, s.file));
        bytes::push32(buf, (o + weak * 0x100 + off * 0x200) as u32);
        if format != DYLD_CHAINED_IMPORT {
            bytes::push32(buf, d[i].1 as u32);
        }
    }
    assert(buf@ =~= start + import_entry(*ctx, d@, format, i as int));
}

/// Encodes the import table. `None` when the names are too long.
fn encode_imports(ctx: &Context, d: &Vec<(u64, u64, u64)>, format: u32) -> (r: Option<Imports>)
    requires
        ctx.wf(),
        entries_exist(*ctx, d@),
        forall|i: int|
            0 <= i < d.len() ==> ctx.inputs.symtab.syms[(#[trigger] d[i]).0 as int].defined_by()
                is Dylib,
    ensures
        ({
            let syms = ctx.inputs.symtab.syms@;
            let names = import_names(syms, d@, d.len() as int);
            let limit = if format == DYLD_CHAINED_IMPORT_ADDEND64 {
                0x1_0000_0000int
            } else {
                0x80_0000
            };
            match r {
                Some(v) => names.len() < limit && v.names@ == names && v.entries@ == import_entries(
                    *ctx,
                    d@,
                    format,
                    d.len() as int,
                ),
                None => names.len() >= limit,
            }
        }),
{
    let ghost syms = ctx.inputs.symtab.syms@;
    let mut names: Vec<u8> = Vec::new();
    let mut entries: Vec<u8> = Vec::new();
    assert(names@ =~= Seq::empty());
    assert(entries@ =~= Seq::empty());
    let limit: u64 = names_limit(format);
    let mut i: usize = 0;
    while i < d.len()
        invariant
            i <= d.len(),
            ctx.wf(),
            syms == ctx.inputs.symtab.syms@,
            entries_exist(*ctx, d@),
            forall|i: int|
                0 <= i < d.len() ==> ctx.inputs.symtab.syms[(#[trigger] d[i]).0 as int].defined_by()
                    is Dylib,
            limit == (if format == DYLD_CHAINED_IMPORT_ADDEND64 {
                0x1_0000_0000int
            } else {
                0x80_0000
            }),
            names@ == import_names(syms, d@, i as int),
            entries@ == import_entries(*ctx, d@, format, i as int),
        decreases d.len() - i,
    {
        if names.len() as u64 >= limit {
            proof {
                lemma_names_grow(syms, d@, i as int, d.len() as int);
            }
            return None;
        }
        assert(ctx.inputs.symtab.syms[d[i as int].0 as int].defined_by() is Dylib);
        push_import(ctx, d, format, i, names.len() as u64, &mut entries);
        if i + 1 == d.len() || d[i + 1].0 != d[i].0 {
            assert(d@[i as int].0 < ctx.inputs.symtab.syms.len());
            let ghost before = names@;
            bytes::append(&mut names, ctx.inputs.symtab.syms[d[i].0 as usize].name());
            names.push(0);
            assert(names@ =~= before + syms[d[i as int].0 as int].name@.push(0));
        }
        i += 1;
    }
    if names.len() as u64 >= limit {
        return None;
    }
    Some(Imports { entries, names })
}

/// Builds the LC_DYLD_CHAINED_FIXUPS payload for sorted fixups.
pub fn build_chained_fixups<E: Arch>(ctx: &Context, fixups: &Vec<Fixup>) -> (r: Result<
    Vec<u8>,
    ChainError,
>)
    requires
        ctx.wf(),
        ctx.layout.segments.len() <= 0x1000_0000,
        super::fixups::imports_exist(*ctx, fixups@),
    ensures
        match r {
            Ok(b) => chained_fixups::<E>(*ctx, fixups@) == Ok::<Seq<u8>, ChainError>(b@),
            Err(e) => chained_fixups::<E>(*ctx, fixups@) == Err::<Seq<u8>, ChainError>(e),
        },
{
    let mut buf: Vec<u8> = Vec::new();
    if fixups.len() == 0 {
        assert(buf@ =~= Seq::empty());
        return Ok(buf);
    }
    if let Some(a) = find_unaligned(fixups) {
        return Err(ChainError::Unaligned(a));
    }
    let d: Vec<(u64, u64, u64)> = list_imports(fixups);
    proof {
        assert(fixups.len() <= usize::MAX);
        lemma_imports_exist(*ctx, fixups@);
        assert forall|i: int| 0 <= i < d.len() implies (#[trigger] d[i]).0
            < ctx.inputs.symtab.syms.len() by {
            assert(d@[i].0 < ctx.inputs.symtab.syms.len());
        }
    }
    if let Some(s) = find_stray(&ctx.inputs.symtab.syms, &d) {
        return Err(ChainError::NoLibrary(s));
    }
    let segs: &Vec<OutputSegment> = &ctx.layout.segments;
    let ghost sv = crate::output_chunks::header::segment_views(segs@);
    let page: u64 = E::get_info().page_size;
    let base: u64 = ctx.args.sw.pagezero_size;
    let records: Records = match encode_records(fixups, segs, page, base) {
        Some(r) => r,
        None => {
            return Err(ChainError::TooManyPages);
        },
    };
    let format: u32 = find_import_format(&d);
    let imports: Imports = match encode_imports(ctx, &d, format) {
        Some(i) => i,
        None => {
            return Err(ChainError::TooLarge);
        },
    };
    let start: u64 = util::align_to(4 + 4 * segs.len() as u64, 8);
    proof {
        util::lemma_aligned(4 + 4 * segs.len(), 8);
        assert(start == starts_size(sv.len() as int));
    }
    let total: u128 = 32 + start as u128 + records.bytes.len() as u128
        + imports.entries.len() as u128;
    if total > u32::MAX as u128 {
        return Err(ChainError::TooLarge);
    }
    Ok(encode_payload(&records, &imports, start as u32, d.len() as u32, format))
}

/// Puts the payload together.
fn encode_payload(records: &Records, imports: &Imports, start: u32, nimports: u32, format: u32) -> (
    buf: Vec<u8>)
    requires
        records.offs.len() <= 0x1000_0000,
        start == starts_size(records.offs.len() as int),
        32 + start + records.bytes.len() + imports.entries.len() <= u32::MAX,
    ensures
        buf@ == payload(
            records.offs.len() as int,
            records.offs@,
            records.bytes@,
            nimports as int,
            format,
            imports.entries@,
            imports.names@,
        ),
{
    let mut buf: Vec<u8> = Vec::new();
    let imports_at: u32 = 32 + start + records.bytes.len() as u32;
    let head: [u32; 8] = [
        0,
        32,
        imports_at,
        imports_at + imports.entries.len() as u32,
        nimports,
        format,
        0,
        0,
    ];
    bytes::push32s(&mut buf, head.as_slice());
    let ghost words = seq![
        0u32,
        32u32,
        imports_at,
        (imports_at + imports.entries.len()) as u32,
        nimports,
        format,
        0u32,
        0u32,
    ];
    assert(head@ =~= words);
    let mut table: Vec<u32> = Vec::new();
    table.push(records.offs.len() as u32);
    while table.len() <= records.offs.len()
        invariant
            1 <= table.len() <= records.offs.len() + 1,
            records.offs.len() <= 0x1000_0000,
            table@ =~= seq![records.offs.len() as u32] + records.offs@.take(table.len() - 1),
        decreases records.offs.len() + 1 - table.len(),
    {
        let o: u32 = records.offs[table.len() - 1];
        table.push(o);
    }
    assert(table@ =~= seq![records.offs.len() as u32] + records.offs@);
    let mut starts: Vec<u8> = Vec::new();
    bytes::push32s(&mut starts, table.as_slice());
    bytes::pad8(&mut starts);
    assert(starts@ =~= bytes::padded8(
        bytes::le32s(seq![records.offs.len() as u32] + records.offs@),
    ));
    bytes::append(&mut buf, starts.as_slice());
    bytes::append(&mut buf, records.bytes.as_slice());
    bytes::append(&mut buf, imports.entries.as_slice());
    bytes::append(&mut buf, imports.names.as_slice());
    assert(buf@ =~= bytes::le32s(words) + starts@ + records.bytes@ + imports.entries@
        + imports.names@);
    bytes::pad8(&mut buf);
    buf
}

/// The distance from a fixup to the next one of its page, in units of four
/// bytes; 0 for the last one of its page.
pub open spec fn next_link(fixups: Seq<Fixup>, i: int, hi: int, page: int) -> u64 {
    if i + 1 < hi && fixups[i + 1].addr as int / page == fixups[i].addr as int / page {
        ((fixups[i + 1].addr - fixups[i].addr) / 4) as u64
    } else {
        0
    }
}

/// The first entry of the import table with a key, from `i` on.
pub open spec fn entry_at(d: Seq<(u64, u64, u64)>, key: (u64, u64, u64), i: int) -> Option<u64>
    decreases d.len() - i,
{
    if i >= d.len() {
        None
    } else if d[i] == key {
        Some(i as u64)
    } else {
        entry_at(d, key, i + 1)
    }
}

fn find_entry(d: &Vec<(u64, u64, u64)>, key: (u64, u64, u64)) -> (r: Option<u64>)
    ensures
        r == entry_at(d@, key, 0),
{
    let mut i: usize = 0;
    while i < d.len()
        invariant
            i <= d.len(),
            entry_at(d@, key, i as int) == entry_at(d@, key, 0),
        decreases d.len() - i,
    {
        if d[i].0 == key.0 && d[i].1 == key.1 && d[i].2 == key.2 {
            return Some(i as u64);
        }
        i += 1;
    }
    None
}

/// A chained bind: the import's ordinal, an inline addend, and the link.
pub open spec fn bind_word(ordinal: u64, addend: i64, next: u64) -> u64 {
    let a = bytes::word64(addend as int);
    ordinal | ((if a <= MAX_INLINE_ADDEND {
        a
    } else {
        0
    }) << 24u64) | (next << 51u64) | (1u64 << 63u64)
}

/// A chained rebase: the target's low 36 bits and its top byte, and the
/// link.
pub open spec fn rebase_word(val: u64, next: u64) -> u64 {
    (val & 0xf_ffff_ffff) | ((val >> 56u64) << 36u64) | (next << 51u64)
}

/// The word of a fixup in place of `val`.
pub open spec fn chain_word(f: Fixup, d: Seq<(u64, u64, u64)>, val: u64, next: u64) -> Result<
    u64,
    ChainError,
> {
    if f.sym is Some {
        match entry_at(d, entry_key(f), 0) {
            None => Err(ChainError::NoImport),
            Some(o) => Ok(bind_word(o, f.addend, next)),
        }
    } else if val & 0x00ff_fff0_0000_0000 != 0 {
        Err(ChainError::Unencodable(f.addr))
    } else {
        Ok(rebase_word(val, next))
    }
}

/// The output with the words of a segment's fixups `lo` to `n` rewritten.
pub open spec fn chained_to(
    buf: Seq<u8>,
    fixups: Seq<Fixup>,
    d: Seq<(u64, u64, u64)>,
    seg: SegmentView,
    page: int,
    hi: int,
    lo: int,
    n: int,
) -> Result<Seq<u8>, ChainError>
    decreases n - lo,
{
    if n <= lo {
        Ok(buf)
    } else {
        match chained_to(buf, fixups, d, seg, page, hi, lo, n - 1) {
            Err(e) => Err(e),
            Ok(b) => {
                let f = fixups[n - 1];
                let off = seg.cmd.fileoff + (f.addr - seg.cmd.vmaddr);
                if off < 0 || off + 8 > b.len() {
                    Err(ChainError::OutOfBounds(f.addr))
                } else {
                    match chain_word(
                        f,
                        d,
                        bytes::u64_at(b, off),
                        next_link(fixups, n - 1, hi, page),
                    ) {
                        Err(e) => Err(e),
                        Ok(w) => Ok(bytes::patched(b, off, bytes::le64(w))),
                    }
                }
            },
        }
    }
}

/// The output with the fixups of the first `n` segments chained.
pub open spec fn chains_to(
    buf: Seq<u8>,
    fixups: Seq<Fixup>,
    segs: Seq<SegmentView>,
    page: int,
    n: int,
) -> Result<Seq<u8>, ChainError>
    decreases n,
{
    if n <= 0 {
        Ok(buf)
    } else {
        match chains_to(buf, fixups, segs, page, n - 1) {
            Err(e) => Err(e),
            Ok(b) => {
                let (lo, hi) = range_of(fixups, segs[n - 1]);
                chained_to(b, fixups, imports_of(fixups), segs[n - 1], page, hi, lo, hi)
            },
        }
    }
}

proof fn lemma_chained_err(
    buf: Seq<u8>,
    fixups: Seq<Fixup>,
    d: Seq<(u64, u64, u64)>,
    seg: SegmentView,
    page: int,
    hi: int,
    lo: int,
    e: ChainError,
    a: int,
    b: int,
)
    requires
        lo < a <= b,
        chained_to(buf, fixups, d, seg, page, hi, lo, a) == Err::<Seq<u8>, ChainError>(e),
    ensures
        chained_to(buf, fixups, d, seg, page, hi, lo, b) == Err::<Seq<u8>, ChainError>(e),
    decreases b - a,
{
    if a < b {
        lemma_chained_err(buf, fixups, d, seg, page, hi, lo, e, a, b - 1);
    }
}

proof fn lemma_chains_err(
    buf: Seq<u8>,
    fixups: Seq<Fixup>,
    segs: Seq<SegmentView>,
    page: int,
    e: ChainError,
    a: int,
    b: int,
)
    requires
        a <= b,
        chains_to(buf, fixups, segs, page, a) == Err::<Seq<u8>, ChainError>(e),
    ensures
        chains_to(buf, fixups, segs, page, b) == Err::<Seq<u8>, ChainError>(e),
    decreases b - a,
{
    if a < b && b > 0 {
        lemma_chains_err(buf, fixups, segs, page, e, a, b - 1);
    }
}

/// Finds a fixup's word.
fn find_word(f: &Fixup, d: &Vec<(u64, u64, u64)>, val: u64, next: u64) -> (r: Result<
    u64,
    ChainError,
>)
    ensures
        match r {
            Ok(w) => chain_word(*f, d@, val, next) == Ok::<u64, ChainError>(w),
            Err(e) => chain_word(*f, d@, val, next) == Err::<u64, ChainError>(e),
        },
{
    match f.sym {
        Some(id) => {
            let key: (u64, u64, u64) = (id as u64, find_table_addend(f.addend), 0);
            match find_entry(d, key) {
                None => Err(ChainError::NoImport),
                Some(o) => {
                    let a: u64 = bytes::from_signed64(f.addend);
                    let inline: u64 = if a <= MAX_INLINE_ADDEND {
                        a
                    } else {
                        0
                    };
                    Ok(o | (inline << 24u64) | (next << 51u64) | (1u64 << 63u64))
                },
            }
        },
        None => {
            if val & 0x00ff_fff0_0000_0000 != 0 {
                return Err(ChainError::Unencodable(f.addr));
            }
            Ok((val & 0xf_ffff_ffff) | ((val >> 56u64) << 36u64) | (next << 51u64))
        },
    }
}

/// Finds the link of a fixup.
fn find_link(fixups: &Vec<Fixup>, i: usize, hi: usize, page: u64) -> (r: u64)
    requires
        i < hi <= fixups.len(),
        page > 0,
        forall|a: int, b: int|
            0 <= a <= b < fixups.len() ==> (#[trigger] fixups[a]).addr <= (
            #[trigger] fixups[b]).addr,
    ensures
        r == next_link(fixups@, i as int, hi as int, page as int),
{
    if i + 1 < hi && fixups[i + 1].addr / page == fixups[i].addr / page {
        (fixups[i + 1].addr - fixups[i].addr) / 4
    } else {
        0
    }
}

/// Chains the fixups of one segment.
fn chain_segment(
    buf: &mut Vec<u8>,
    fixups: &Vec<Fixup>,
    d: &Vec<(u64, u64, u64)>,
    seg: &OutputSegment,
    page: u64,
) -> (r: Result<(), ChainError>)
    requires
        page > 0,
        d@ == imports_of(fixups@),
        forall|a: int, b: int|
            0 <= a <= b < fixups.len() ==> (#[trigger] fixups[a]).addr <= (
            #[trigger] fixups[b]).addr,
    ensures
        ({
            let (lo, hi) = range_of(fixups@, seg@);
            let want = chained_to(old(buf)@, fixups@, d@, seg@, page as int, hi, lo, hi);
            match r {
                Ok(()) => want == Ok::<Seq<u8>, ChainError>(final(buf)@),
                Err(e) => want == Err::<Seq<u8>, ChainError>(e),
            }
        }),
{
    let (lo, hi): (usize, usize) = find_range(fixups, seg);
    let ghost start = buf@;
    let mut i: usize = lo;
    while i < hi
        invariant
            lo <= i,
            i <= hi || i == lo,
            hi <= fixups.len(),
            page > 0,
            start == old(buf)@,
            range_of(fixups@, seg@) == (lo as int, hi as int),
            forall|a: int, b: int|
                0 <= a <= b < fixups.len() ==> (#[trigger] fixups[a]).addr <= (
                #[trigger] fixups[b]).addr,
            chained_to(
                start,
                fixups@,
                d@,
                seg@,
                page as int,
                hi as int,
                lo as int,
                i as int,
            ) == Ok::<Seq<u8>, ChainError>(buf@),
        decreases hi - i,
    {
        let f: Fixup = fixups[i];
        let off: i128 = seg.cmd.fileoff as i128 + (f.addr as i128 - seg.cmd.vmaddr as i128);
        if off < 0 || off + 8 > buf.len() as i128 {
            proof {
                lemma_chained_err(
                    start,
                    fixups@,
                    d@,
                    seg@,
                    page as int,
                    hi as int,
                    lo as int,
                    ChainError::OutOfBounds(f.addr),
                    i + 1,
                    hi as int,
                );
            }
            return Err(ChainError::OutOfBounds(f.addr));
        }
        let at: usize = off as usize;
        let val: u64 = bytes::get64(buf.as_slice(), at);
        let next: u64 = find_link(fixups, i, hi, page);
        match find_word(&f, d, val, next) {
            Ok(w) => {
                bytes::put64(buf, at, w);
            },
            Err(e) => {
                proof {
                    lemma_chained_err(
                        start,
                        fixups@,
                        d@,
                        seg@,
                        page as int,
                        hi as int,
                        lo as int,
                        e,
                        i + 1,
                        hi as int,
                    );
                }
                return Err(e);
            },
        }
        i += 1;
    }
    Ok(())
}

/// Writes the fixup chains into the copied output: every fixup word is
/// rewritten to encode its payload and the distance to the next fixup of its
/// page.
pub fn write_fixup_chains<E: Arch>(ctx: &Context, fixups: &Vec<Fixup>, buf: &mut Vec<u8>) -> (r:
    Result<(), ChainError>)
    requires
        forall|a: int, b: int|
            0 <= a <= b < fixups.len() ==> (#[trigger] fixups[a]).addr <= (
            #[trigger] fixups[b]).addr,
    ensures
        ({
            let segs = crate::output_chunks::header::segment_views(ctx.layout.segments@);
            let want = chains_to(
                old(buf)@,
                fixups@,
                segs,
                E::info().page_size as int,
                segs.len() as int,
            );
            match r {
                Ok(()) => want == Ok::<Seq<u8>, ChainError>(final(buf)@),
                Err(e) => want == Err::<Seq<u8>, ChainError>(e),
            }
        }),
{
    let d: Vec<(u64, u64, u64)> = list_imports(fixups);
    let page: u64 = E::get_info().page_size;
    let ghost sv = crate::output_chunks::header::segment_views(ctx.layout.segments@);
    let ghost start = buf@;
    let mut n: usize = 0;
    while n < ctx.layout.segments.len()
        invariant
            n <= ctx.layout.segments.len(),
            page > 0,
            page == E::info().page_size,
            d@ == imports_of(fixups@),
            start == old(buf)@,
            sv == crate::output_chunks::header::segment_views(ctx.layout.segments@),
            forall|a: int, b: int|
                0 <= a <= b < fixups.len() ==> (#[trigger] fixups[a]).addr <= (
                #[trigger] fixups[b]).addr,
            chains_to(start, fixups@, sv, page as int, n as int) == Ok::<Seq<u8>, ChainError>(buf@),
        decreases ctx.layout.segments.len() - n,
    {
        assert(sv[n as int] == ctx.layout.segments[n as int]@);
        match chain_segment(buf, fixups, &d, &ctx.layout.segments[n], page) {
            Ok(()) => {},
            Err(e) => {
                proof {
                    lemma_chains_err(start, fixups@, sv, page as int, e, n + 1, sv.len() as int);
                }
                return Err(e);
            },
        }
        n += 1;
    }
    Ok(())
}

/// A chain leads through all fixups of a page: the link of a fixup leads to
/// the next one exactly when that is in the same page, it is 0 otherwise,
/// and it fits in its 12 bits.
pub proof fn lemma_chain_links(fixups: Seq<Fixup>, i: int, hi: int, page: int)
    requires
        page == 4096 || page == 16384,
        0 <= i < hi <= fixups.len(),
        first_unaligned(fixups, 0) is None,
        i + 1 < hi ==> fixups[i].addr < fixups[i + 1].addr,
    ensures
        next_link(fixups, i, hi, page) < 0x1000,
        next_link(fixups, i, hi, page) != 0 <==> i + 1 < hi && fixups[i + 1].addr as int / page
            == fixups[i].addr as int / page,
        next_link(fixups, i, hi, page) != 0 ==> fixups[i].addr + 4 * next_link(
            fixups,
            i,
            hi,
            page,
        ) == fixups[i + 1].addr,
{
    lemma_all_aligned(fixups, 0, i);
    if i + 1 < hi {
        lemma_all_aligned(fixups, 0, i + 1);
    }
}

proof fn lemma_all_aligned(fixups: Seq<Fixup>, from: int, i: int)
    requires
        0 <= from <= i < fixups.len(),
        first_unaligned(fixups, from) is None,
    ensures
        fixups[i].addr % 4 == 0,
    decreases i - from,
{
    if from < i {
        lemma_all_aligned(fixups, from + 1, i);
    }
}

} // verus!
