//! What dyld finds when it walks chained fixups. The words and records are
//! read field by field, as the format lays them out.
use super::chained::{
    chain_word, chained_to, distinct_to, entry_at, entry_key, first_unaligned, import_entry,
    import_format, import_names, imports_of, is_last, max_addend, next_link, page_start, used_to,
    ChainError,
};
use super::fixups::Fixup;
use crate::context::Context;
use crate::output_chunks::header::SegmentView;
use crate::symbol::Symbol;
use crate::util::{bytes, order};
use vstd::prelude::*;

verus! {

/// Bit 63 of a chained word: set for a bind, clear for a rebase.
pub open spec fn is_bind(word: u64) -> bool {
    word >> 63u64 == 1
}

/// The number of an import in a bind: bits 0 to 23.
pub open spec fn import_number(word: u64) -> int {
    (word & 0xff_ffff) as int
}

/// The addend that a bind carries itself: bits 24 to 31.
pub open spec fn inline_addend(word: u64) -> int {
    ((word >> 24u64) & 0xff) as int
}

/// The distance to the next word of the chain: bits 51 to 62, in units of
/// four bytes.
pub open spec fn link_of(word: u64) -> int {
    ((word >> 51u64) & 0xfff) as int
}

/// The address in a rebase: bits 0 to 35, with bits 36 to 43 as its top
/// byte.
pub open spec fn rebase_target(word: u64) -> int {
    (word & 0xf_ffff_ffff) as int + ((word >> 36u64) & 0xff) as int * 0x100_0000_0000_0000
}

proof fn lemma_entry_at(d: Seq<(u64, u64, u64)>, key: (u64, u64, u64), i: int)
    requires
        0 <= i <= d.len() <= 0x100_0000,
    ensures
        entry_at(d, key, i) matches Some(o) ==> i <= o < d.len() && d[o as int] == key,
        entry_at(d, key, i) is None ==> forall|k: int| i <= k < d.len() ==> #[trigger] d[k] != key,
    decreases d.len() - i,
{
    if i < d.len() && d[i] != key {
        lemma_entry_at(d, key, i + 1);
    }
}

proof fn lemma_bind_bits(o: u64, a: u64, next: u64)
    requires
        o < 0x100_0000,
        a < 0x100,
        next < 0x1000,
    ensures
        ({
            let w = o | (a << 24u64) | (next << 51u64) | (1u64 << 63u64);
            &&& w >> 63u64 == 1
            &&& w & 0xff_ffff == o
            &&& (w >> 24u64) & 0xff == a
            &&& (w >> 32u64) & 0x7_ffff == 0
            &&& (w >> 51u64) & 0xfff == next
        }),
{
    let w = o | (a << 24u64) | (next << 51u64) | (1u64 << 63u64);
    assert(w >> 63u64 == 1 && w & 0xff_ffff == o && (w >> 24u64) & 0xff == a && (w >> 32u64)
        & 0x7_ffff == 0 && (w >> 51u64) & 0xfff == next) by (bit_vector)
        requires
            o < 0x100_0000,
            a < 0x100,
            next < 0x1000,
            w == o | (a << 24u64) | (next << 51u64) | (1u64 << 63u64),
    ;
}

/// Reading a bind back gives what was asked for: it is marked as a bind, its
/// import is the fixup's symbol, its own addend and the import's add up to
/// the fixup's addend modulo 2^64, and its link is the one given.
pub proof fn lemma_bind_reads_back(f: Fixup, d: Seq<(u64, u64, u64)>, val: u64, next: u64)
    requires
        f.sym is Some,
        d.len() <= 0x100_0000,
        next < 0x1000,
        chain_word(f, d, val, next) is Ok,
    ensures
        ({
            let w = chain_word(f, d, val, next)->Ok_0;
            let n = import_number(w);
            &&& is_bind(w)
            &&& n < d.len()
            &&& d[n].0 == f.sym->0
            &&& (inline_addend(w) + d[n].1 - f.addend) % 0x1_0000_0000_0000_0000 == 0
            &&& (w >> 32u64) & 0x7_ffff == 0
            &&& link_of(w) == next
        }),
{
    reveal(bytes::word64);
    lemma_entry_at(d, entry_key(f), 0);
    let o = entry_at(d, entry_key(f), 0)->0;
    let a = bytes::word64(f.addend as int);
    lemma_bind_bits(
        o,
        if a <= 255 {
            a
        } else {
            0
        },
        next,
    );
}

/// Reading a rebase back gives the address that it slides, and its link. An
/// address is refused exactly when it has a bit between its low 36 ones and
/// its top byte.
pub proof fn lemma_rebase_reads_back(f: Fixup, d: Seq<(u64, u64, u64)>, val: u64, next: u64)
    requires
        f.sym is None,
        next < 0x1000,
    ensures
        chain_word(f, d, val, next) is Err <==> (val >> 36u64) & 0xf_ffff != 0,
        chain_word(f, d, val, next) matches Ok(w) ==> !is_bind(w) && rebase_target(w) == val
            && link_of(w) == next,
{
    let w = (val & 0xf_ffff_ffff) | ((val >> 56u64) << 36u64) | (next << 51u64);
    let lo = w & 0xf_ffff_ffff;
    let hi = (w >> 36u64) & 0xff;
    assert((val & 0x00ff_fff0_0000_0000 != 0) == ((val >> 36u64) & 0xf_ffff != 0)) by (bit_vector);
    if val & 0x00ff_fff0_0000_0000 == 0 {
        assert(w >> 63u64 == 0 && (w >> 51u64) & 0xfff == next && lo + hi * 0x100_0000_0000_0000
            == val) by (bit_vector)
            requires
                val & 0x00ff_fff0_0000_0000 == 0,
                next < 0x1000,
                w == (val & 0xf_ffff_ffff) | ((val >> 56u64) << 36u64) | (next << 51u64),
                lo == w & 0xf_ffff_ffff,
                hi == (w >> 36u64) & 0xff,
        ;
    }
}

proof fn lemma_used(fixups: Seq<Fixup>, n: int, i: int)
    requires
        0 <= n <= fixups.len(),
        0 <= i < n,
        fixups[i].sym is Some,
    ensures
        used_to(fixups, n).contains(entry_key(fixups[i])),
    decreases n,
{
    let prev = used_to(fixups, n - 1);
    if i < n - 1 {
        lemma_used(fixups, n - 1, i);
        let k = prev.index_of(entry_key(fixups[i]));
        assert(used_to(fixups, n)[k] == entry_key(fixups[i]));
    } else {
        assert(used_to(fixups, n)[prev.len() as int] == entry_key(fixups[i]));
    }
}

proof fn lemma_used_len(fixups: Seq<Fixup>, n: int)
    requires
        0 <= n,
    ensures
        used_to(fixups, n).len() <= n,
    decreases n,
{
    if n > 0 {
        lemma_used_len(fixups, n - 1);
    }
}

proof fn lemma_distinct_keeps(s: Seq<(u64, u64, u64)>, n: int, k: int)
    requires
        0 <= k < n <= s.len(),
    ensures
        distinct_to(s, n).contains(s[k]),
    decreases n,
{
    let prev = distinct_to(s, n - 1);
    if k < n - 1 {
        lemma_distinct_keeps(s, n - 1, k);
        let j = prev.index_of(s[k]);
        assert(distinct_to(s, n)[j] == s[k]);
    } else if n > 1 && s[n - 1] == s[n - 2] {
        lemma_distinct_keeps(s, n - 1, n - 2);
    } else {
        assert(distinct_to(s, n)[prev.len() as int] == s[k]);
    }
}

/// Every fixup that binds a symbol finds its import in the table that is
/// made from the fixups, so that no bind is refused.
pub proof fn lemma_every_bind_has_an_import(fixups: Seq<Fixup>, i: int, val: u64, next: u64)
    requires
        fixups.len() <= usize::MAX,
        0 <= i < fixups.len(),
        fixups[i].sym is Some,
        imports_of(fixups).len() <= 0x100_0000,
    ensures
        chain_word(fixups[i], imports_of(fixups), val, next) is Ok,
        exists|k: int|
            0 <= k < imports_of(fixups).len() && (#[trigger] imports_of(fixups)[k]).0
                == fixups[i].sym->0,
{
    let key = entry_key(fixups[i]);
    let used = used_to(fixups, fixups.len() as int);
    lemma_used(fixups, fixups.len() as int, i);
    lemma_used_len(fixups, fixups.len() as int);
    order::lemma_stable_order_exists(used);
    let at = order::stable_order_of(used);
    let sorted = at.map_values(|i: usize| used[i as int]);
    let p = used.index_of(key);
    assert(at.contains(p as usize));
    let q = at.index_of(p as usize);
    assert(sorted[q] == key);
    lemma_distinct_keeps(sorted, sorted.len() as int, q);
    let d = imports_of(fixups);
    let k = d.index_of(key);
    assert(d[k] == key);
    lemma_entry_at(d, key, 0);
}

/// Where a fixup of a segment is in the file.
pub open spec fn file_place(seg: SegmentView, f: Fixup) -> int {
    seg.cmd.fileoff + (f.addr - seg.cmd.vmaddr)
}

proof fn lemma_patched_quad(b: Seq<u8>, off: int, v: u64, other: int)
    requires
        0 <= off,
        off + 8 <= b.len(),
        0 <= other,
        other + 8 <= b.len(),
    ensures
        ({
            let c = bytes::patched(b, off, bytes::le64(v));
            &&& c.len() == b.len()
            &&& bytes::u64_at(c, off) == v
            &&& (other + 8 <= off || off + 8 <= other) ==> bytes::u64_at(c, other)
                == bytes::u64_at(b, other)
        }),
{
    reveal(bytes::u32_at);
    reveal(bytes::u64_at);
    bytes::lemma_le64_round_trip(v);
    let c = bytes::patched(b, off, bytes::le64(v));
    bytes::lemma_patched_len(b, off, bytes::le64(v));
    assert forall|k: int| 0 <= k < 8 implies c[off + k] == #[trigger] bytes::le64(v)[k] by {}
    assert(bytes::u32_at(c, off) == bytes::u32_at(bytes::le64(v), 0));
    assert(bytes::u32_at(c, off + 4) == bytes::u32_at(bytes::le64(v), 4));
}

proof fn lemma_chained_len(
    buf: Seq<u8>,
    fixups: Seq<Fixup>,
    d: Seq<(u64, u64, u64)>,
    seg: SegmentView,
    page: int,
    hi: int,
    lo: int,
    n: int,
)
    requires
        lo <= n,
    ensures
        chained_to(buf, fixups, d, seg, page, hi, lo, n) matches Ok(b) ==> b.len() == buf.len(),
    decreases n - lo,
{
    if n > lo {
        lemma_chained_len(buf, fixups, d, seg, page, hi, lo, n - 1);
        if let Ok(b) = chained_to(buf, fixups, d, seg, page, hi, lo, n - 1) {
            let off = file_place(seg, fixups[n - 1]);
            if 0 <= off && off + 8 <= b.len() {
                if let Ok(w) = chain_word(
                    fixups[n - 1],
                    d,
                    bytes::u64_at(b, off),
                    next_link(fixups, n - 1, hi, page),
                ) {
                    lemma_patched_quad(b, off, w, off);
                }
            }
        }
    }
}

proof fn lemma_chained_word(
    buf: Seq<u8>,
    fixups: Seq<Fixup>,
    d: Seq<(u64, u64, u64)>,
    seg: SegmentView,
    page: int,
    hi: int,
    lo: int,
    n: int,
    i: int,
)
    requires
        0 <= lo <= n <= hi <= fixups.len(),
        lo <= i < hi,
        forall|j: int, k: int|
            lo <= j < k < hi ==> (#[trigger] fixups[j]).addr + 8 <= (#[trigger] fixups[k]).addr,
        chained_to(buf, fixups, d, seg, page, hi, lo, n) is Ok,
        0 <= file_place(seg, fixups[i]),
        file_place(seg, fixups[i]) + 8 <= buf.len(),
    ensures
        ({
            let at = file_place(seg, fixups[i]);
            let b = chained_to(buf, fixups, d, seg, page, hi, lo, n)->Ok_0;
            &&& i >= n ==> bytes::u64_at(b, at) == bytes::u64_at(buf, at)
            &&& i < n ==> chain_word(
                fixups[i],
                d,
                bytes::u64_at(buf, at),
                next_link(fixups, i, hi, page),
            ) == Ok::<u64, ChainError>(bytes::u64_at(b, at))
        }),
    decreases n - lo,
{
    if n > lo {
        lemma_chained_word(buf, fixups, d, seg, page, hi, lo, n - 1, i);
        lemma_chained_len(buf, fixups, d, seg, page, hi, lo, n - 1);
        let b = chained_to(buf, fixups, d, seg, page, hi, lo, n - 1)->Ok_0;
        let off = file_place(seg, fixups[n - 1]);
        let at = file_place(seg, fixups[i]);
        let w = chain_word(
            fixups[n - 1],
            d,
            bytes::u64_at(b, off),
            next_link(fixups, n - 1, hi, page),
        )->Ok_0;
        lemma_patched_quad(b, off, w, at);
        if i < n - 1 {
            assert(fixups[i].addr + 8 <= fixups[n - 1].addr);
        } else if i > n - 1 {
            assert(fixups[n - 1].addr + 8 <= fixups[i].addr);
        }
    }
}

/// After a segment's fixups were chained, every one of them can be read back
/// from its place in the file: a bind gives the symbol and the addend that
/// were asked for, a rebase the address that stood there, and the link
/// leads to the next fixup of the page, if there is one.
pub proof fn lemma_chain_reads_back(
    buf: Seq<u8>,
    fixups: Seq<Fixup>,
    d: Seq<(u64, u64, u64)>,
    seg: SegmentView,
    page: int,
    lo: int,
    hi: int,
    i: int,
)
    requires
        page == 4096 || page == 16384,
        0 <= lo <= i < hi <= fixups.len(),
        d.len() <= 0x100_0000,
        first_unaligned(fixups, 0) is None,
        forall|j: int, k: int|
            lo <= j < k < hi ==> (#[trigger] fixups[j]).addr + 8 <= (#[trigger] fixups[k]).addr,
        0 <= file_place(seg, fixups[i]),
        file_place(seg, fixups[i]) + 8 <= buf.len(),
        chained_to(buf, fixups, d, seg, page, hi, lo, hi) is Ok,
    ensures
        ({
            let at = file_place(seg, fixups[i]);
            let w = bytes::u64_at(chained_to(buf, fixups, d, seg, page, hi, lo, hi)->Ok_0, at);
            let n = import_number(w);
            let more = i + 1 < hi && fixups[i + 1].addr as int / page == fixups[i].addr as int
                / page;
            &&& is_bind(w) <==> fixups[i].sym is Some
            &&& fixups[i].sym matches Some(s) ==> n < d.len() && d[n].0 == s && (inline_addend(w)
                + d[n].1 - fixups[i].addend) % 0x1_0000_0000_0000_0000 == 0
            &&& fixups[i].sym is None ==> rebase_target(w) == bytes::u64_at(buf, at)
            &&& link_of(w) * 4 == (if more {
                fixups[i + 1].addr - fixups[i].addr
            } else {
                0
            })
        }),
{
    lemma_chained_word(buf, fixups, d, seg, page, hi, lo, hi, i);
    if i + 1 < hi {
        assert(fixups[i].addr + 8 <= fixups[i + 1].addr);
    }
    super::chained::lemma_chain_links(fixups, i, hi, page);
    let at = file_place(seg, fixups[i]);
    let link = next_link(fixups, i, hi, page);
    let old_word = bytes::u64_at(buf, at);
    if fixups[i].sym is Some {
        lemma_bind_reads_back(fixups[i], d, old_word, link);
    } else {
        lemma_rebase_reads_back(fixups[i], d, old_word, link);
    }
}

/// The record of a page starts its chain at the page's first fixup: its
/// value is that fixup's offset in the page, and 0xffff for a page without
/// fixups.
pub proof fn lemma_page_starts_chain(
    fixups: Seq<Fixup>,
    lo: int,
    hi: int,
    page_addr: int,
    page: int,
)
    requires
        page == 4096 || page == 16384,
        page_addr % page == 0,
        0 <= lo <= hi <= fixups.len(),
        forall|j: int, k: int|
            lo <= j < k < hi ==> (#[trigger] fixups[j]).addr < (#[trigger] fixups[k]).addr,
    ensures
        ({
            let start = page_start(fixups, lo, hi, page_addr, page);
            if start == 0xffff {
                forall|i: int|
                    lo <= i < hi ==> !(page_addr <= (#[trigger] fixups[i]).addr < page_addr + page)
            } else {
                exists|i: int|
                    lo <= i < hi && (#[trigger] fixups[i]).addr == page_addr + start && forall|j:
                        int|
                        lo <= j < i ==> (#[trigger] fixups[j]).addr < page_addr
            }
        }),
    decreases hi - lo,
{
    if lo < hi {
        let a = fixups[lo].addr;
        let start = page_start(fixups, lo, hi, page_addr, page);
        if a < page_addr {
            lemma_page_starts_chain(fixups, lo + 1, hi, page_addr, page);
            if start != 0xffff {
                let i = choose|i: int|
                    lo + 1 <= i < hi && (#[trigger] fixups[i]).addr == page_addr + start && forall|
                        j: int,
                    |
                        lo + 1 <= j < i ==> (#[trigger] fixups[j]).addr < page_addr;
                assert(fixups[i].addr == page_addr + start);
            }
        } else if a < page_addr + page {
            assert(a as int % page == a - page_addr) by {
                vstd::arithmetic::div_mod::lemma_mod_adds(page_addr, a - page_addr, page);
                vstd::arithmetic::div_mod::lemma_small_mod((a - page_addr) as nat, page as nat);
            }
            assert(fixups[lo].addr == page_addr + start);
        } else {
            assert forall|i: int| lo <= i < hi implies !(page_addr <= (#[trigger] fixups[i]).addr
                < page_addr + page) by {
                if i > lo {
                    assert(fixups[lo].addr < fixups[i].addr);
                }
            }
        }
    }
}

/// The parts of an import: the library's ordinal in `bits` bits, whether it
/// may be missing, where its name is, and its addend.
pub struct ImportParts {
    pub ordinal: int,
    pub weak: bool,
    pub name: int,
    pub addend: int,
}

/// An import as dyld reads it. In formats 1 and 2 a 32-bit word holds the
/// ordinal in 8 bits, the weak bit, and the place of the name in 23 bits; in
/// format 2 a 32-bit addend follows. In format 3 a 64-bit word holds the
/// ordinal in 16 bits, the weak bit, and the place of the name in its upper
/// half, and a 64-bit addend follows.
pub open spec fn import_parts(format: u32, e: Seq<u8>) -> ImportParts {
    if format == 3 {
        let w = bytes::u64_at(e, 0) as int;
        ImportParts {
            ordinal: w % 0x1_0000,
            weak: w / 0x1_0000 % 2 == 1,
            name: w / 0x1_0000_0000,
            addend: bytes::u64_at(e, 8) as int,
        }
    } else {
        let w = bytes::u32_at(e, 0) as int;
        ImportParts {
            ordinal: w % 0x100,
            weak: w / 0x100 % 2 == 1,
            name: w / 0x200,
            addend: if format == 2 {
                bytes::u32_at(e, 4) as int
            } else {
                0
            },
        }
    }
}

proof fn lemma_max_addend(d: Seq<(u64, u64, u64)>, n: int, i: int)
    requires
        0 <= i < n <= d.len(),
    ensures
        d[i].1 <= max_addend(d, n),
    decreases n,
{
    if i < n - 1 {
        lemma_max_addend(d, n - 1, i);
    }
}

proof fn lemma_two_quads(a: u64, b: u64)
    ensures
        bytes::u64_at(bytes::le64(a) + bytes::le64(b), 0) == a,
        bytes::u64_at(bytes::le64(a) + bytes::le64(b), 8) == b,
{
    reveal(bytes::u32_at);
    reveal(bytes::u64_at);
    bytes::lemma_le64_round_trip(a);
    bytes::lemma_le64_round_trip(b);
    let x = bytes::le64(a);
    let y = bytes::le64(b);
    let s = x + y;
    assert(bytes::u32_at(s, 0) == bytes::u32_at(x, 0));
    assert(bytes::u32_at(s, 4) == bytes::u32_at(x, 4));
    assert(bytes::u32_at(s, 8) == bytes::u32_at(y, 0));
    assert(bytes::u32_at(s, 12) == bytes::u32_at(y, 4));
}

proof fn lemma_two_words(a: u32, b: u32)
    ensures
        bytes::u32_at(bytes::le32(a) + bytes::le32(b), 0) == a,
        bytes::u32_at(bytes::le32(a) + bytes::le32(b), 4) == b,
{
    reveal(bytes::u32_at);
    bytes::lemma_le32_round_trip(a);
    bytes::lemma_le32_round_trip(b);
}

proof fn lemma_word_parts(ord: int, weak: int, off: int)
    requires
        0 <= ord < 0x100,
        0 <= weak < 2,
        0 <= off < 0x80_0000,
    ensures
        0 <= ord + weak * 0x100 + off * 0x200 <= u32::MAX,
        (ord + weak * 0x100 + off * 0x200) % 0x100 == ord,
        (ord + weak * 0x100 + off * 0x200) / 0x100 % 2 == weak,
        (ord + weak * 0x100 + off * 0x200) / 0x200 == off,
{
    let w = ord + weak * 0x100 + off * 0x200;
    assert(w / 0x100 == weak + off * 2);
}

proof fn lemma_quad_parts(ord: int, weak: int, off: int)
    requires
        0 <= ord < 0x1_0000,
        0 <= weak < 2,
        0 <= off < 0x80_0000,
    ensures
        0 <= ord + weak * 0x1_0000 + off * 0x1_0000_0000 <= u64::MAX,
        (ord + weak * 0x1_0000 + off * 0x1_0000_0000) % 0x1_0000 == ord,
        (ord + weak * 0x1_0000 + off * 0x1_0000_0000) / 0x1_0000 % 2 == weak,
        (ord + weak * 0x1_0000 + off * 0x1_0000_0000) / 0x1_0000_0000 == off,
{
    let w = ord + weak * 0x1_0000 + off * 0x1_0000_0000;
    assert(w / 0x1_0000 == weak + off * 0x1_0000);
}

/// Reading an import back gives the ordinal of its library, whether it may
/// be missing, the place of its name, and its addend in full: the format is
/// chosen so that every addend of the table fits.
pub proof fn lemma_import_reads_back(ctx: Context, d: Seq<(u64, u64, u64)>, i: int)
    requires
        0 <= i < d.len(),
        import_names(ctx.inputs.symtab.syms@, d, i).len() < 0x80_0000,
    ensures
        ({
            let s = ctx.inputs.symtab.syms[d[i].0 as int];
            let format = import_format(d);
            let p = import_parts(format, import_entry(ctx, d, format, i));
            &&& 1 <= format <= 3
            &&& p.ordinal == ctx.import_ordinal(s.file) % (if format == 3 {
                0x1_0000
            } else {
                0x100
            })
            &&& p.weak == s.flags.is_weak_ref
            &&& p.name == import_names(ctx.inputs.symtab.syms@, d, i).len()
            &&& p.addend == d[i].1
        }),
{
    lemma_max_addend(d, d.len() as int, i);
    let s = ctx.inputs.symtab.syms[d[i].0 as int];
    let off = import_names(ctx.inputs.symtab.syms@, d, i).len();
    let ord = ctx.import_ordinal(s.file);
    let weak: int = if s.flags.is_weak_ref {
        1
    } else {
        0
    };
    let w32 = (ord % 0x100 + weak * 0x100 + off * 0x200) as u32;
    let w64 = (ord % 0x1_0000 + weak * 0x1_0000 + off * 0x1_0000_0000) as u64;
    lemma_word_parts(ord % 0x100, weak, off as int);
    lemma_quad_parts(ord % 0x1_0000, weak, off as int);
    lemma_two_quads(w64, d[i].1);
    lemma_two_words(w32, d[i].1 as u32);
    bytes::lemma_le32_round_trip(w32);
}

proof fn lemma_names_prefix(syms: Seq<Symbol>, d: Seq<(u64, u64, u64)>, a: int, b: int)
    requires
        0 <= a <= b,
    ensures
        import_names(syms, d, a).len() <= import_names(syms, d, b).len(),
        import_names(syms, d, b).take(import_names(syms, d, a).len() as int) == import_names(
            syms,
            d,
            a,
        ),
    decreases b - a,
{
    if a < b {
        lemma_names_prefix(syms, d, a, b - 1);
    }
    assert(import_names(syms, d, b).take(import_names(syms, d, a).len() as int) =~= import_names(
        syms,
        d,
        a,
    ));
}

/// At the place that an import gives for its name stands the name of its
/// symbol, with a zero byte behind it, however many imports share it.
pub proof fn lemma_import_names_read_back(syms: Seq<Symbol>, d: Seq<(u64, u64, u64)>, i: int)
    requires
        0 <= i < d.len(),
    ensures
        bytes::occurs_at(
            import_names(syms, d, d.len() as int),
            syms[d[i].0 as int].name@.push(0),
            import_names(syms, d, i).len() as int,
        ),
    decreases d.len() - i,
{
    let all = import_names(syms, d, d.len() as int);
    let at = import_names(syms, d, i).len() as int;
    let name = syms[d[i].0 as int].name@.push(0);
    if is_last(d, i) {
        lemma_names_prefix(syms, d, i + 1, d.len() as int);
        let upto = import_names(syms, d, i + 1);
        assert(upto == import_names(syms, d, i) + name);
        assert forall|k: int| 0 <= k < name.len() implies all[at + k] == name[k] by {
            assert(all.take(upto.len() as int)[at + k] == upto[at + k]);
        }
        assert(all.subrange(at, at + name.len()) =~= name);
    } else {
        lemma_import_names_read_back(syms, d, i + 1);
    }
}

} // verus!
