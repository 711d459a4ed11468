//! __unwind_info: the compact unwind records, in two-level tables.
//!
//! A first-level table lists the second-level pages by the address of their
//! first function. A compressed page holds 32-bit entries, with a 24-bit
//! offset from the page's first function and an 8-bit index of an encoding,
//! which is either one of the image's common encodings or one of the page's
//! own. A regular page holds addresses and encodings as they are.
use crate::macho::consts::{
    UNWIND_SECOND_LEVEL_COMPRESSED, UNWIND_SECOND_LEVEL_REGULAR, UNWIND_SECTION_VERSION,
};
use crate::util::{bytes, find_position, order};
use vstd::prelude::*;

verus! {

/// How to unwind the stack through one function, with its final address.
#[derive(Clone, Copy, Debug, PartialEq, Eq)]
pub struct UnwindEntry {
    pub addr: u64,
    pub code_len: u32,
    pub encoding: u32,
    /// The personality function's symbol.
    pub personality: Option<u32>,
    /// The address of the language-specific data area.
    pub lsda: Option<u64>,
}

/// Why unwind information cannot be encoded.
#[derive(Clone, Copy, Debug, PartialEq, Eq, Structural)]
pub enum EncodeError {
    /// There are more than three personality functions.
    TooManyPersonalities,
    /// There are more records than can be counted.
    TooManyRecords,
}

pub const PAGE_SIZE: usize = 4096;

pub const COMPRESSED_HDR: usize = 12;

pub const REGULAR_HDR: usize = 8;

/// How many entries a regular page holds.
pub const REGULAR_MAX: usize = 511;

/// How many encodings the common table holds.
pub const COMMON_MAX: usize = 127;

/// An encoding with the index of its personality function in bits 28 and 29.
pub open spec fn with_index(encoding: u32, idx: int) -> u32 {
    let n = (idx + 1) as u32;
    encoding | (n << 28u32)
}

/// The entries from `i` on, behind those in `acc`, with personality indices
/// in their encodings, and the personality functions.
pub open spec fn indexed(
    entries: Seq<UnwindEntry>,
    i: int,
    pers: Seq<u32>,
    acc: Seq<UnwindEntry>,
) -> Result<(Seq<UnwindEntry>, Seq<u32>), EncodeError>
    decreases entries.len() - i,
{
    if i < 0 || i >= entries.len() {
        Ok((acc, pers))
    } else {
        match entries[i].personality {
            None => indexed(entries, i + 1, pers, acc.push(entries[i])),
            Some(p) => {
                let idx = crate::util::position_of(pers, p, 0);
                let next = if idx < pers.len() {
                    pers
                } else {
                    pers.push(p)
                };
                if idx >= 3 {
                    Err(EncodeError::TooManyPersonalities)
                } else {
                    indexed(
                        entries,
                        i + 1,
                        next,
                        acc.push(
                            UnwindEntry {
                                encoding: with_index(entries[i].encoding, idx),
                                ..entries[i]
                            },
                        ),
                    )
                }
            },
        }
    }
}

/// Assigns personality indices.
fn index_personalities(entries: &Vec<UnwindEntry>) -> (r: Result<
    (Vec<UnwindEntry>, Vec<u32>),
    EncodeError,
>)
    ensures
        match r {
            Ok((v, pers)) => indexed(entries@, 0, Seq::empty(), Seq::empty()) == Ok::<
                (Seq<UnwindEntry>, Seq<u32>),
                EncodeError,
            >((v@, pers@)) && v.len() == entries.len() && pers.len() <= 3,
            Err(e) => indexed(entries@, 0, Seq::empty(), Seq::empty()) == Err::<
                (Seq<UnwindEntry>, Seq<u32>),
                EncodeError,
            >(e),
        },
{
    let mut out: Vec<UnwindEntry> = Vec::new();
    let mut pers: Vec<u32> = Vec::new();
    let mut i: usize = 0;
    assert(out@ =~= Seq::<UnwindEntry>::empty());
    assert(pers@ =~= Seq::<u32>::empty());
    while i < entries.len()
        invariant
            i <= entries.len(),
            out.len() == i,
            pers.len() <= 3,
            indexed(entries@, 0, Seq::empty(), Seq::empty()) == indexed(
                entries@,
                i as int,
                pers@,
                out@,
            ),
        decreases entries.len() - i,
    {
        let mut e: UnwindEntry = entries[i];
        match e.personality {
            None => {},
            Some(p) => {
                let idx: usize = find_position(&pers, p);
                if idx >= 3 {
                    return Err(EncodeError::TooManyPersonalities);
                }
                if idx >= pers.len() {
                    pers.push(p);
                }
                let n: u32 = idx as u32 + 1;
                e.encoding = e.encoding | (n << 28u32);
            },
        }
        out.push(e);
        i += 1;
    }
    Ok((out, pers))
}

/// The addresses of the functions.
pub open spec fn entry_addrs(entries: Seq<UnwindEntry>) -> Seq<u64> {
    entries.map_values(|e: UnwindEntry| e.addr)
}

/// The entries in the order of their functions' addresses.
pub open spec fn in_order(entries: Seq<UnwindEntry>) -> Seq<UnwindEntry> {
    order::stable_order_of(entry_addrs(entries)).map_values(|i: usize| entries[i as int])
}

/// Sorts the entries by address.
fn sort_entries(entries: &Vec<UnwindEntry>) -> (r: Vec<UnwindEntry>)
    ensures
        r@ == in_order(entries@),
        r.len() == entries.len(),
{
    let mut keys: Vec<u64> = Vec::new();
    let mut i: usize = 0;
    while i < entries.len()
        invariant
            i <= entries.len(),
            keys.len() == i,
            forall|k: int| 0 <= k < i ==> keys[k] == (#[trigger] entries[k]).addr,
        decreases entries.len() - i,
    {
        keys.push(entries[i].addr);
        i += 1;
    }
    assert(keys@ =~= entry_addrs(entries@));
    let ord: Vec<usize> = order::stable_order(keys.as_slice());
    let mut out: Vec<UnwindEntry> = Vec::new();
    let mut j: usize = 0;
    while j < ord.len()
        invariant
            j <= ord.len(),
            ord@ == order::stable_order_of(entry_addrs(entries@)),
            forall|k: int| 0 <= k < ord.len() ==> (#[trigger] ord[k]) < entries.len(),
            out.len() == j,
            forall|k: int| 0 <= k < j ==> #[trigger] out[k] == entries[ord[k] as int],
        decreases ord.len() - j,
    {
        out.push(entries[ord[j]]);
        j += 1;
    }
    assert(out@ =~= in_order(entries@));
    out
}

/// True when `next` continues `last`: it follows it and is unwound the same
/// way.
pub open spec fn continues(last: UnwindEntry, next: UnwindEntry) -> bool {
    &&& bytes::word64(last.addr + last.code_len) == next.addr
    &&& last.encoding == next.encoding
    &&& last.personality == next.personality
    &&& last.lsda is None
    &&& next.lsda is None
}

/// The entries from `i` on, behind those in `acc`, with adjacent entries
/// that unwind the same way made one.
pub open spec fn merged(entries: Seq<UnwindEntry>, i: int, acc: Seq<UnwindEntry>) -> Seq<
    UnwindEntry,
>
    decreases entries.len() - i,
{
    if i < 0 || i >= entries.len() {
        acc
    } else if acc.len() > 0 && continues(acc.last(), entries[i]) {
        merged(
            entries,
            i + 1,
            acc.drop_last().push(
                UnwindEntry {
                    code_len: bytes::word32(acc.last().code_len + entries[i].code_len),
                    ..acc.last()
                },
            ),
        )
    } else {
        merged(entries, i + 1, acc.push(entries[i]))
    }
}

/// Merges adjacent entries with identical contents.
fn merge_entries(entries: &Vec<UnwindEntry>) -> (r: Vec<UnwindEntry>)
    ensures
        r@ == merged(entries@, 0, Seq::empty()),
        r.len() <= entries.len(),
        entries.len() > 0 ==> r.len() > 0,
{
    let mut out: Vec<UnwindEntry> = Vec::new();
    let mut i: usize = 0;
    assert(out@ =~= Seq::<UnwindEntry>::empty());
    while i < entries.len()
        invariant
            i <= entries.len(),
            out.len() <= i,
            i > 0 ==> out.len() > 0,
            merged(entries@, 0, Seq::empty()) == merged(entries@, i as int, out@),
        decreases entries.len() - i,
    {
        let e: UnwindEntry = entries[i];
        let n: usize = out.len();
        let mut joined: bool = false;
        if n > 0 {
            let last: UnwindEntry = out[n - 1];
            let same_personality: bool = match (last.personality, e.personality) {
                (None, None) => true,
                (Some(a), Some(b)) => a == b,
                _ => false,
            };
            if bytes::sum64(last.addr, last.code_len as u64) == e.addr && last.encoding
                == e.encoding && same_personality && last.lsda.is_none() && e.lsda.is_none() {
                let len: u32 = bytes::low32(bytes::sum64(last.code_len as u64, e.code_len as u64));
                let ghost before = out@;
                proof {
                    assert(len == bytes::word32(last.code_len + e.code_len)) by {
                        reveal(bytes::word32);
                        reveal(bytes::word64);
                    }
                }
                out.set(n - 1, UnwindEntry { code_len: len, ..last });
                assert(out@ =~= before.drop_last().push(
                    UnwindEntry { code_len: len, ..last },
                ));
                joined = true;
            }
        }
        if !joined {
            out.push(e);
        }
        i += 1;
    }
    out
}

/// The encodings of the entries, in order.
pub open spec fn encodings_of(entries: Seq<UnwindEntry>) -> Seq<u32> {
    entries.map_values(|e: UnwindEntry| e.encoding)
}

/// How often `v` stands among the first `n` values.
pub open spec fn count_of(s: Seq<u32>, v: u32, n: int) -> int
    decreases n,
{
    if n <= 0 {
        0
    } else {
        count_of(s, v, n - 1) + if s[n - 1] == v {
            1int
        } else {
            0
        }
    }
}

/// The distinct values among the first `n`, in order of appearance.
pub open spec fn distinct(s: Seq<u32>, n: int) -> Seq<u32>
    decreases n,
{
    if n <= 0 {
        Seq::empty()
    } else {
        let d = distinct(s, n - 1);
        if crate::util::position_of(d, s[n - 1], 0) < d.len() {
            d
        } else {
            d.push(s[n - 1])
        }
    }
}

/// Keys that sort the values `d` by how often they stand in `s`, the most
/// frequent first.
pub open spec fn rarity(s: Seq<u32>, d: Seq<u32>) -> Seq<u64> {
    d.map_values(|v: u32| (u64::MAX - count_of(s, v, s.len() as int)) as u64)
}

/// The first of the values `d[ord[k]]`, as long as they stand in `s` more
/// than once and the table has room.
pub open spec fn frequent(s: Seq<u32>, d: Seq<u32>, ord: Seq<usize>, n: int) -> Seq<u32>
    decreases n,
{
    if n <= 0 {
        Seq::empty()
    } else {
        let before = frequent(s, d, ord, n - 1);
        let v = d[ord[n - 1] as int];
        if before.len() < COMMON_MAX && count_of(s, v, s.len() as int) > 1 {
            before.push(v)
        } else {
            before
        }
    }
}

/// The common encodings: those that are used more than once, the most
/// frequent first (of equally frequent ones the one used first), up to as
/// many as the table holds.
pub open spec fn common_of(s: Seq<u32>) -> Seq<u32> {
    let d = distinct(s, s.len() as int);
    frequent(s, d, order::stable_order_of(rarity(s, d)), d.len() as int)
}

fn count_value(s: &Vec<u32>, v: u32) -> (r: u64)
    ensures
        r == count_of(s@, v, s.len() as int),
        r <= s.len(),
{
    let mut n: u64 = 0;
    let mut i: usize = 0;
    while i < s.len()
        invariant
            i <= s.len(),
            n == count_of(s@, v, i as int),
            n <= i,
        decreases s.len() - i,
    {
        if s[i] == v {
            n += 1;
        }
        i += 1;
    }
    n
}

/// Finds the common encodings.
fn find_common(s: &Vec<u32>) -> (r: Vec<u32>)
    ensures
        r@ == common_of(s@),
        r.len() <= COMMON_MAX,
{
    let mut d: Vec<u32> = Vec::new();
    let mut i: usize = 0;
    while i < s.len()
        invariant
            i <= s.len(),
            d@ == distinct(s@, i as int),
        decreases s.len() - i,
    {
        if find_position(&d, s[i]) >= d.len() {
            d.push(s[i]);
        }
        i += 1;
    }
    let mut keys: Vec<u64> = Vec::new();
    let mut counts: Vec<u64> = Vec::new();
    let mut j: usize = 0;
    while j < d.len()
        invariant
            j <= d.len(),
            keys.len() == j,
            counts.len() == j,
            forall|k: int| 0 <= k < j ==> #[trigger] keys[k] == rarity(s@, d@)[k],
            forall|k: int|
                0 <= k < j ==> #[trigger] counts[k] == count_of(s@, d[k], s.len() as int),
        decreases d.len() - j,
    {
        let c: u64 = count_value(s, d[j]);
        keys.push(u64::MAX - c);
        counts.push(c);
        j += 1;
    }
    assert(keys@ =~= rarity(s@, d@));
    let ord: Vec<usize> = order::stable_order(keys.as_slice());
    let mut out: Vec<u32> = Vec::new();
    let mut k: usize = 0;
    while k < d.len()
        invariant
            k <= d.len(),
            ord.len() == d.len(),
            counts.len() == d.len(),
            forall|j: int| 0 <= j < ord.len() ==> (#[trigger] ord[j]) < d.len(),
            forall|j: int|
                0 <= j < d.len() ==> #[trigger] counts[j] == count_of(s@, d[j], s.len() as int),
            out@ == frequent(s@, d@, ord@, k as int),
            out.len() <= COMMON_MAX,
        decreases d.len() - k,
    {
        if out.len() < COMMON_MAX && counts[ord[k]] > 1 {
            out.push(d[ord[k]]);
        }
        k += 1;
    }
    out
}

/// A second-level page: a range of entries, and the page's own encodings if
/// it is compressed.
#[verifier::ext_equal]
pub struct PageView {
    pub start: int,
    pub end: int,
    pub compressed: bool,
    pub encodings: Seq<u32>,
}

#[derive(Debug)]
pub struct Page {
    pub start: usize,
    pub end: usize,
    pub compressed: bool,
    pub encodings: Vec<u32>,
}

impl View for Page {
    type V = PageView;

    open spec fn view(&self) -> PageView {
        PageView {
            start: self.start as int,
            end: self.end as int,
            compressed: self.compressed,
            encodings: self.encodings@,
        }
    }
}

pub open spec fn page_views(v: Seq<Page>) -> Seq<PageView> {
    v.map_values(|p: Page| p@)
}

/// True if a compressed page would get a new encoding of its own.
pub open spec fn is_new(common: Seq<u32>, encs: Seq<u32>, enc: u32) -> bool {
    crate::util::position_of(common, enc, 0) >= common.len() && crate::util::position_of(
        encs,
        enc,
        0,
    ) >= encs.len()
}

/// True if a compressed page that ends at `end` and holds the entries from
/// `i` on, with the encodings `encs`, has room for the entry before them.
pub open spec fn has_room(
    recs: Seq<UnwindEntry>,
    common: Seq<u32>,
    end: int,
    i: int,
    encs: Seq<u32>,
) -> bool {
    let rec = recs[i - 1];
    let fresh: int = if is_new(common, encs, rec.encoding) {
        1
    } else {
        0
    };
    &&& fresh == 1 ==> common.len() + encs.len() + 1 <= 256
    &&& COMPRESSED_HDR + (end - i + 1) * 4 + (encs.len() + fresh) * 4 <= PAGE_SIZE
    &&& bytes::word64(recs[end - 1].addr - rec.addr) < 0x100_0000
}

/// Where a compressed page that ends at `end` starts if it takes as many
/// entries as it has room for, and its own encodings.
pub open spec fn fill(
    recs: Seq<UnwindEntry>,
    common: Seq<u32>,
    end: int,
    i: int,
    encs: Seq<u32>,
) -> (int, Seq<u32>)
    decreases i,
{
    if i <= 0 || !has_room(recs, common, end, i, encs) {
        (i, encs)
    } else if is_new(common, encs, recs[i - 1].encoding) {
        fill(recs, common, end, i - 1, encs.push(recs[i - 1].encoding))
    } else {
        fill(recs, common, end, i - 1, encs)
    }
}

/// How many entries a regular page that ends at `end` holds.
pub open spec fn regular_count(end: int) -> int {
    if end < REGULAR_MAX {
        end
    } else {
        REGULAR_MAX as int
    }
}

/// The page that ends at `end`: in the format that holds more entries.
pub open spec fn page_before(recs: Seq<UnwindEntry>, common: Seq<u32>, end: int) -> PageView {
    let (start, encs) = fill(recs, common, end, end, Seq::empty());
    if end - start >= regular_count(end) {
        PageView { start, end, compressed: true, encodings: encs }
    } else {
        PageView {
            start: end - regular_count(end),
            end,
            compressed: false,
            encodings: Seq::empty(),
        }
    }
}

/// The pages of the first `end` entries, in front of those in `acc`. They
/// are filled from the end, so that the first page is the partial one.
pub open spec fn pages_to(
    recs: Seq<UnwindEntry>,
    common: Seq<u32>,
    end: int,
    acc: Seq<PageView>,
) -> Seq<PageView>
    decreases end,
{
    let page = page_before(recs, common, end);
    if end <= 0 || page.start >= end || page.start < 0 {
        acc
    } else {
        pages_to(recs, common, page.start, seq![page] + acc)
    }
}

proof fn lemma_fill(
    recs: Seq<UnwindEntry>,
    common: Seq<u32>,
    end: int,
    i: int,
    encs: Seq<u32>,
)
    requires
        0 <= i <= end,
        common.len() + encs.len() <= 256,
        encs.len() <= end - i,
        i < end ==> COMPRESSED_HDR + (end - i) * 4 + encs.len() * 4 <= PAGE_SIZE,
    ensures
        0 <= fill(recs, common, end, i, encs).0 <= i,
        common.len() + fill(recs, common, end, i, encs).1.len() <= 256,
        ({
            let (start, all) = fill(recs, common, end, i, encs);
            start < end ==> COMPRESSED_HDR + (end - start) * 4 + all.len() * 4 <= PAGE_SIZE
        }),
    decreases i,
{
    if i > 0 && has_room(recs, common, end, i, encs) {
        if is_new(common, encs, recs[i - 1].encoding) {
            lemma_fill(recs, common, end, i - 1, encs.push(recs[i - 1].encoding));
        } else {
            lemma_fill(recs, common, end, i - 1, encs);
        }
    }
}

/// Fills a compressed page that ends at `end`.
fn fill_page(recs: &Vec<UnwindEntry>, common: &Vec<u32>, end: usize) -> (r: (usize, Vec<u32>))
    requires
        0 < end <= recs.len(),
        common.len() <= COMMON_MAX,
    ensures
        fill(recs@, common@, end as int, end as int, Seq::empty()) == (r.0 as int, r.1@),
        r.0 <= end,
        r.1.len() <= 256,
{
    let mut encs: Vec<u32> = Vec::new();
    let mut i: usize = end;
    let last: u64 = recs[end - 1].addr;
    assert(encs@ =~= Seq::<u32>::empty());
    while i > 0
        invariant
            0 < end <= recs.len(),
            i <= end,
            end - i <= 1024,
            encs.len() <= 256,
            common.len() <= COMMON_MAX,
            last == recs[end - 1].addr,
            fill(recs@, common@, end as int, end as int, Seq::empty()) == fill(
                recs@,
                common@,
                end as int,
                i as int,
                encs@,
            ),
        decreases i,
    {
        let rec: UnwindEntry = recs[i - 1];
        let fresh: bool = find_position(common, rec.encoding) >= common.len() && find_position(
            &encs,
            rec.encoding,
        ) >= encs.len();
        if fresh && common.len() + encs.len() + 1 > 256 {
            return (i, encs);
        }
        let count: usize = encs.len() + if fresh {
            1
        } else {
            0
        };
        if COMPRESSED_HDR + (end - i + 1) * 4 + count * 4 > PAGE_SIZE {
            return (i, encs);
        }
        if bytes::distance(last, rec.addr) >= 0x100_0000 {
            return (i, encs);
        }
        if fresh {
            encs.push(rec.encoding);
        }
        i -= 1;
    }
    (i, encs)
}

/// Divides the entries into pages.
fn make_pages(recs: &Vec<UnwindEntry>, common: &Vec<u32>) -> (r: Vec<Page>)
    requires
        common.len() <= COMMON_MAX,
    ensures
        page_views(r@) == pages_to(recs@, common@, recs.len() as int, Seq::empty()),
        r.len() <= recs.len(),
        forall|k: int|
            0 <= k < r.len() ==> (#[trigger] r[k]).start < r[k].end <= recs.len()
                && r[k].encodings.len() <= 256,
{
    let mut pages: Vec<Page> = Vec::new();
    let mut end: usize = recs.len();
    assert(page_views(pages@) =~= Seq::<PageView>::empty());
    while end > 0
        invariant
            end <= recs.len(),
            pages.len() + end <= recs.len(),
            common.len() <= COMMON_MAX,
            forall|k: int|
                0 <= k < pages.len() ==> (#[trigger] pages[k]).start < pages[k].end <= recs.len()
                    && pages[k].encodings.len() <= 256,
            pages_to(recs@, common@, recs.len() as int, Seq::empty()) == pages_to(
                recs@,
                common@,
                end as int,
                page_views(pages@),
            ),
        decreases end,
    {
        let (start, encs) = fill_page(recs, common, end);
        let regular: usize = if end < REGULAR_MAX {
            end
        } else {
            REGULAR_MAX
        };
        let page: Page = if end - start >= regular {
            Page { start, end, compressed: true, encodings: encs }
        } else {
            let none: Vec<u32> = Vec::new();
            assert(none@ =~= Seq::<u32>::empty());
            Page { start: end - regular, end, compressed: false, encodings: none }
        };
        let next: usize = page.start;
        let ghost pv = page@;
        let ghost before = pages@;
        assert(pv =~= page_before(recs@, common@, end as int));
        pages.insert(0, page);
        proof {
            assert(page_views(pages@) =~= seq![pv] + page_views(before));
            assert forall|k: int| 0 <= k < pages.len() implies (#[trigger] pages[k]).start
                < pages[k].end <= recs.len() && pages[k].encodings.len() <= 256 by {
                if k > 0 {
                    assert(pages[k] == before[k - 1]);
                }
            }
        }
        end = next;
    }
    pages
}

/// An address relative to the image.
pub open spec fn image_offset(addr: u64, base: u64) -> u32 {
    bytes::word32(addr - base)
}

fn to_image_offset(addr: u64, base: u64) -> (r: u32)
    ensures
        r == image_offset(addr, base),
{
    proof {
        bytes::lemma_word32_word64(addr - base);
    }
    bytes::low32(bytes::distance(addr, base))
}

/// The LSDA rows of the entries from `lo` to `hi`: the function's address
/// and that of its data area.
pub open spec fn lsda_rows(recs: Seq<UnwindEntry>, base: u64, lo: int, hi: int) -> Seq<u8>
    decreases hi - lo,
{
    if hi <= lo {
        Seq::empty()
    } else {
        let before = lsda_rows(recs, base, lo, hi - 1);
        match recs[hi - 1].lsda {
            Some(a) => before + bytes::le32(image_offset(recs[hi - 1].addr, base)) + bytes::le32(
                image_offset(a, base),
            ),
            None => before,
        }
    }
}

/// The number by which a compressed entry refers to an encoding.
pub open spec fn encoding_index(common: Seq<u32>, encs: Seq<u32>, enc: u32) -> int {
    let i = crate::util::position_of(common, enc, 0);
    if i < common.len() {
        i
    } else {
        common.len() + crate::util::position_of(encs, enc, 0)
    }
}

/// An entry of a compressed page.
pub open spec fn compressed_entry(
    rec: UnwindEntry,
    first: u64,
    common: Seq<u32>,
    encs: Seq<u32>,
) -> u32 {
    bytes::word32(
        bytes::word64(rec.addr - first) + 0x100_0000 * encoding_index(common, encs, rec.encoding),
    )
}

/// The entries of a compressed page that starts at `lo`, up to `hi`.
pub open spec fn compressed_entries(
    recs: Seq<UnwindEntry>,
    common: Seq<u32>,
    encs: Seq<u32>,
    lo: int,
    hi: int,
) -> Seq<u8>
    decreases hi - lo,
{
    if hi <= lo {
        Seq::empty()
    } else {
        compressed_entries(recs, common, encs, lo, hi - 1) + bytes::le32(
            compressed_entry(recs[hi - 1], recs[lo].addr, common, encs),
        )
    }
}

/// The entries of a regular page.
pub open spec fn regular_entries(recs: Seq<UnwindEntry>, base: u64, lo: int, hi: int) -> Seq<u8>
    decreases hi - lo,
{
    if hi <= lo {
        Seq::empty()
    } else {
        regular_entries(recs, base, lo, hi - 1) + bytes::le32(
            image_offset(recs[hi - 1].addr, base),
        ) + bytes::le32(recs[hi - 1].encoding)
    }
}

/// A 16-bit count.
pub open spec fn half(n: int) -> u16 {
    (n % 0x1_0000) as u16
}

/// A second-level page.
pub open spec fn page_bytes(
    recs: Seq<UnwindEntry>,
    common: Seq<u32>,
    base: u64,
    page: PageView,
) -> Seq<u8> {
    let n = page.end - page.start;
    if page.compressed {
        bytes::le32(UNWIND_SECOND_LEVEL_COMPRESSED) + bytes::le16(half(COMPRESSED_HDR as int))
            + bytes::le16(half(n)) + bytes::le16(half(COMPRESSED_HDR + n * 4)) + bytes::le16(
            half(page.encodings.len() as int),
        ) + compressed_entries(recs, common, page.encodings, page.start, page.end) + bytes::le32s(
            page.encodings,
        )
    } else {
        bytes::le32(UNWIND_SECOND_LEVEL_REGULAR) + bytes::le16(half(REGULAR_HDR as int))
            + bytes::le16(half(n)) + regular_entries(recs, base, page.start, page.end)
    }
}

fn push_lsda_rows(buf: &mut Vec<u8>, recs: &Vec<UnwindEntry>, base: u64, lo: usize, hi: usize)
    requires
        lo <= hi <= recs.len(),
    ensures
        final(buf)@ == old(buf)@ + lsda_rows(recs@, base, lo as int, hi as int),
{
    let ghost before = buf@;
    let mut i: usize = lo;
    assert(buf@ =~= before + lsda_rows(recs@, base, lo as int, lo as int));
    while i < hi
        invariant
            lo <= i <= hi <= recs.len(),
            buf@ == before + lsda_rows(recs@, base, lo as int, i as int),
        decreases hi - i,
    {
        match recs[i].lsda {
            Some(a) => {
                bytes::push32(buf, to_image_offset(recs[i].addr, base));
                bytes::push32(buf, to_image_offset(a, base));
            },
            None => {},
        }
        assert(buf@ =~= before + lsda_rows(recs@, base, lo as int, i + 1));
        i += 1;
    }
}

/// Makes an entry of a compressed page.
fn compress_entry(rec: &UnwindEntry, first: u64, common: &Vec<u32>, encs: &Vec<u32>) -> (r: u32)
    requires
        common.len() <= COMMON_MAX,
        encs.len() <= 256,
    ensures
        r == compressed_entry(*rec, first, common@, encs@),
{
    let c: usize = find_position(common, rec.encoding);
    let idx: u64 = if c < common.len() {
        c as u64
    } else {
        common.len() as u64 + find_position(encs, rec.encoding) as u64
    };
    assert(idx <= 1024);
    let delta: u64 = bytes::distance(rec.addr, first);
    proof {
        bytes::lemma_word32_word64(delta + 0x100_0000 * idx);
    }
    bytes::low32(bytes::sum64(delta, 0x100_0000 * idx))
}

fn push_page(
    buf: &mut Vec<u8>,
    recs: &Vec<UnwindEntry>,
    common: &Vec<u32>,
    base: u64,
    page: &Page,
)
    requires
        page.start < page.end <= recs.len(),
        recs.len() <= u32::MAX,
        common.len() <= COMMON_MAX,
        page.encodings.len() <= 256,
    ensures
        final(buf)@ == old(buf)@ + page_bytes(recs@, common@, base, page@),
{
    let ghost before = buf@;
    let n: usize = page.end - page.start;
    let count: u16 = (n % 0x1_0000) as u16;
    if page.compressed {
        let encs_off: u16 = ((COMPRESSED_HDR as u64 + n as u64 * 4) % 0x1_0000) as u16;
        bytes::push32(buf, UNWIND_SECOND_LEVEL_COMPRESSED);
        bytes::push16(buf, 12);
        bytes::push16(buf, count);
        bytes::push16(buf, encs_off);
        bytes::push16(buf, (page.encodings.len() % 0x1_0000) as u16);
        let ghost head = buf@;
        let first: u64 = recs[page.start].addr;
        let mut i: usize = page.start;
        assert(buf@ =~= head + compressed_entries(
            recs@,
            common@,
            page.encodings@,
            page.start as int,
            i as int,
        ));
        while i < page.end
            invariant
                page.start <= i <= page.end <= recs.len(),
                page.start < page.end,
                common.len() <= COMMON_MAX,
                page.encodings.len() <= 256,
                first == recs[page.start as int].addr,
                buf@ == head + compressed_entries(
                    recs@,
                    common@,
                    page.encodings@,
                    page.start as int,
                    i as int,
                ),
            decreases page.end - i,
        {
            let entry: u32 = compress_entry(&recs[i], first, common, &page.encodings);
            bytes::push32(buf, entry);
            proof {
                bytes::lemma_assoc(
                    head,
                    compressed_entries(
                        recs@,
                        common@,
                        page.encodings@,
                        page.start as int,
                        i as int,
                    ),
                    bytes::le32(entry),
                );
            }
            i += 1;
        }
        bytes::push32s(buf, page.encodings.as_slice());
        assert(buf@ =~= before + page_bytes(recs@, common@, base, page@));
    } else {
        bytes::push32(buf, UNWIND_SECOND_LEVEL_REGULAR);
        bytes::push16(buf, 8);
        bytes::push16(buf, count);
        let ghost head = buf@;
        let mut i: usize = page.start;
        assert(buf@ =~= head + regular_entries(recs@, base, page.start as int, i as int));
        while i < page.end
            invariant
                page.start <= i <= page.end <= recs.len(),
                buf@ == head + regular_entries(recs@, base, page.start as int, i as int),
            decreases page.end - i,
        {
            bytes::push32(buf, to_image_offset(recs[i].addr, base));
            bytes::push32(buf, recs[i].encoding);
            assert(buf@ =~= head + regular_entries(recs@, base, page.start as int, i + 1));
            i += 1;
        }
        assert(buf@ =~= before + page_bytes(recs@, common@, base, page@));
    }
}

/// The second-level pages of the first `k` pages.
pub open spec fn all_pages(
    recs: Seq<UnwindEntry>,
    common: Seq<u32>,
    base: u64,
    pages: Seq<PageView>,
    k: int,
) -> Seq<u8>
    decreases k,
{
    if k <= 0 {
        Seq::empty()
    } else {
        all_pages(recs, common, base, pages, k - 1) + page_bytes(recs, common, base, pages[k - 1])
    }
}

/// The LSDA rows of the first `k` pages.
pub open spec fn all_rows(recs: Seq<UnwindEntry>, base: u64, pages: Seq<PageView>, k: int) -> Seq<
    u8,
>
    decreases k,
{
    if k <= 0 {
        Seq::empty()
    } else {
        all_rows(recs, base, pages, k - 1) + lsda_rows(
            recs,
            base,
            pages[k - 1].start,
            pages[k - 1].end,
        )
    }
}

/// The first-level entries of the first `k` pages: the address of the page's
/// first function, and where the page and its LSDA rows are.
pub open spec fn first_level(
    recs: Seq<UnwindEntry>,
    common: Seq<u32>,
    base: u64,
    pages: Seq<PageView>,
    lsda_off: int,
    page2_off: int,
    k: int,
) -> Seq<u8>
    decreases k,
{
    if k <= 0 {
        Seq::empty()
    } else {
        first_level(recs, common, base, pages, lsda_off, page2_off, k - 1) + bytes::le32(
            image_offset(recs[pages[k - 1].start].addr, base),
        ) + bytes::le32(
            bytes::word32(page2_off + all_pages(recs, common, base, pages, k - 1).len()),
        ) + bytes::le32(bytes::word32(lsda_off + all_rows(recs, base, pages, k - 1).len()))
    }
}

/// The section's header.
pub open spec fn header(ncommon: int, npers: int, npages: int) -> Seq<u8> {
    bytes::le32(UNWIND_SECTION_VERSION) + bytes::le32(28) + bytes::le32(bytes::word32(ncommon))
        + bytes::le32(bytes::word32(28 + 4 * ncommon)) + bytes::le32(bytes::word32(npers))
        + bytes::le32(bytes::word32(28 + 4 * ncommon + 4 * npers)) + bytes::le32(
        bytes::word32(npages + 1),
    )
}

/// The section's contents for merged entries: header, common encodings,
/// room for the personality functions, first level, LSDA rows, second level.
pub open spec fn section_bytes(recs: Seq<UnwindEntry>, npers: int, base: u64) -> Seq<u8> {
    let common = common_of(encodings_of(recs));
    let pages = pages_to(recs, common, recs.len() as int, Seq::empty());
    let n = pages.len() as int;
    let lsda_off = 28 + 4 * common.len() + 4 * npers + 12 * (n + 1);
    let rows = all_rows(recs, base, pages, n);
    let page2_off = lsda_off + rows.len();
    header(common.len() as int, npers, n) + bytes::le32s(common) + bytes::zeros(4 * npers)
        + first_level(recs, common, base, pages, lsda_off, page2_off, n) + bytes::le32(
        bytes::word32(recs.last().addr + recs.last().code_len + 1 - base),
    ) + bytes::le32(0) + bytes::le32(bytes::word32(lsda_off + rows.len())) + rows + all_pages(
        recs,
        common,
        base,
        pages,
        n,
    )
}

/// The section's contents and the personality functions.
pub open spec fn unwind_info(entries: Seq<UnwindEntry>, base: u64) -> Result<
    (Seq<u8>, Seq<u32>),
    EncodeError,
> {
    if entries.len() == 0 {
        Ok((Seq::empty(), Seq::empty()))
    } else if entries.len() > u32::MAX {
        Err(EncodeError::TooManyRecords)
    } else {
        match indexed(entries, 0, Seq::empty(), Seq::empty()) {
            Err(e) => Err(e),
            Ok((v, pers)) => Ok(
                (
                    section_bytes(
                        merged(in_order(v), 0, Seq::empty()),
                        pers.len() as int,
                        base,
                    ),
                    pers,
                ),
            ),
        }
    }
}

fn push_header(buf: &mut Vec<u8>, ncommon: usize, npers: usize, npages: usize)
    requires
        ncommon <= COMMON_MAX,
        npers <= 3,
        npages <= u32::MAX,
    ensures
        final(buf)@ == old(buf)@ + header(ncommon as int, npers as int, npages as int),
{
    let ghost before = buf@;
    let a: u32 = bytes::low32(ncommon as u64);
    let b: u32 = bytes::low32(28 + 4 * ncommon as u64);
    let c: u32 = bytes::low32(npers as u64);
    let d: u32 = bytes::low32(28 + 4 * ncommon as u64 + 4 * npers as u64);
    let e: u32 = bytes::low32(npages as u64 + 1);
    bytes::push32(buf, UNWIND_SECTION_VERSION);
    bytes::push32(buf, 28);
    bytes::push32(buf, a);
    bytes::push32(buf, b);
    bytes::push32(buf, c);
    bytes::push32(buf, d);
    bytes::push32(buf, e);
    proof {
        let v = bytes::le32(UNWIND_SECTION_VERSION);
        let o = bytes::le32(28);
        bytes::lemma_assoc(before, v, o);
        bytes::lemma_assoc3(before, v + o, bytes::le32(a), bytes::le32(b), bytes::le32(c));
        bytes::lemma_assoc(
            before,
            v + o + bytes::le32(a) + bytes::le32(b) + bytes::le32(c),
            bytes::le32(d),
        );
        bytes::lemma_assoc(
            before,
            v + o + bytes::le32(a) + bytes::le32(b) + bytes::le32(c) + bytes::le32(d),
            bytes::le32(e),
        );
    }
}

/// Appends the first-level entries.
fn push_first_level(
    buf: &mut Vec<u8>,
    recs: &Vec<UnwindEntry>,
    common: &Vec<u32>,
    base: u64,
    pages: &Vec<Page>,
    lsda_off: u64,
    rows_len: usize,
    row_starts: &Vec<usize>,
    page_starts: &Vec<usize>,
)
    requires
        forall|j: int|
            0 <= j < pages.len() ==> (#[trigger] pages[j]).start < pages[j].end <= recs.len(),
        row_starts.len() == pages.len(),
        page_starts.len() == pages.len(),
        forall|j: int|
            0 <= j < pages.len() ==> #[trigger] row_starts[j] == all_rows(
                recs@,
                base,
                page_views(pages@),
                j,
            ).len(),
        forall|j: int|
            0 <= j < pages.len() ==> #[trigger] page_starts[j] == all_pages(
                recs@,
                common@,
                base,
                page_views(pages@),
                j,
            ).len(),
    ensures
        final(buf)@ == old(buf)@ + first_level(
            recs@,
            common@,
            base,
            page_views(pages@),
            lsda_off as int,
            lsda_off + rows_len,
            pages.len() as int,
        ),
{
    let ghost pv = page_views(pages@);
    let ghost head = buf@;
    let ghost p2 = lsda_off + rows_len;
    let page2_off: u64 = bytes::sum64(lsda_off, rows_len as u64);
    let mut j: usize = 0;
    proof {
        bytes::lemma_empty_right(head);
    }
    while j < pages.len()
        invariant
            j <= pages.len(),
            pv == page_views(pages@),
            forall|j: int|
                0 <= j < pages.len() ==> (#[trigger] pages[j]).start < pages[j].end <= recs.len(),
            row_starts.len() == pages.len(),
            page_starts.len() == pages.len(),
            forall|j: int|
                0 <= j < pages.len() ==> #[trigger] row_starts[j] == all_rows(
                    recs@,
                    base,
                    pv,
                    j,
                ).len(),
            forall|j: int|
                0 <= j < pages.len() ==> #[trigger] page_starts[j] == all_pages(
                    recs@,
                    common@,
                    base,
                    pv,
                    j,
                ).len(),
            p2 == lsda_off + rows_len,
            page2_off == bytes::word64(p2),
            buf@ == head + first_level(
                recs@,
                common@,
                base,
                pv,
                lsda_off as int,
                p2,
                j as int,
            ),
        decreases pages.len() - j,
    {
        assert(pv[j as int] == pages[j as int]@);
        let x: u32 = to_image_offset(recs[pages[j].start].addr, base);
        let a: u32 = bytes::low32(bytes::sum64(page2_off, page_starts[j] as u64));
        let b: u32 = bytes::low32(bytes::sum64(lsda_off, row_starts[j] as u64));
        proof {
            bytes::lemma_word64_sum(p2, page_starts[j as int] as int);
            bytes::lemma_word32_word64(p2 + page_starts[j as int]);
            bytes::lemma_word32_word64(lsda_off + row_starts[j as int]);
        }
        bytes::push32(buf, x);
        bytes::push32(buf, a);
        bytes::push32(buf, b);
        proof {
            bytes::lemma_assoc3(
                head,
                first_level(recs@, common@, base, pv, lsda_off as int, p2, j as int),
                bytes::le32(x),
                bytes::le32(a),
                bytes::le32(b),
            );
        }
        j += 1;
    }
}

/// Appends the terminating first-level entry.
fn push_last(buf: &mut Vec<u8>, last: &UnwindEntry, base: u64, lsda_off: u64, rows_len: usize)
    ensures
        final(buf)@ == old(buf)@ + bytes::le32(
            bytes::word32(last.addr + last.code_len + 1 - base),
        ) + bytes::le32(0) + bytes::le32(bytes::word32(lsda_off + rows_len)),
{
    let end: u64 = bytes::sum64(last.addr, last.code_len as u64 + 1);
    let tail: u32 = to_image_offset(end, base);
    proof {
        let sum = last.addr + (last.code_len + 1);
        bytes::lemma_word64_sum(sum, -(base as int));
        bytes::lemma_word32_word64(sum - base);
        bytes::lemma_word32_word64(bytes::word64(sum) - base);
    }
    let rows_end: u32 = bytes::low32(bytes::sum64(lsda_off, rows_len as u64));
    proof {
        bytes::lemma_word32_word64(lsda_off + rows_len);
    }
    bytes::push32(buf, tail);
    bytes::push32(buf, 0);
    bytes::push32(buf, rows_end);
}

/// Writes the section for merged entries.
fn write_section(recs: &Vec<UnwindEntry>, npers: usize, base: u64) -> (buf: Vec<u8>)
    requires
        0 < recs.len() <= u32::MAX,
        npers <= 3,
    ensures
        buf@ == section_bytes(recs@, npers as int, base),
{
    let mut encodings: Vec<u32> = Vec::new();
    let mut i: usize = 0;
    while i < recs.len()
        invariant
            i <= recs.len(),
            encodings.len() == i,
            forall|k: int| 0 <= k < i ==> encodings[k] == (#[trigger] recs[k]).encoding,
        decreases recs.len() - i,
    {
        encodings.push(recs[i].encoding);
        i += 1;
    }
    assert(encodings@ =~= encodings_of(recs@));
    let common: Vec<u32> = find_common(&encodings);
    let pages: Vec<Page> = make_pages(recs, &common);
    let ghost pv = page_views(pages@);
    let n: usize = pages.len();
    let lsda_off: u64 = 28 + 4 * common.len() as u64 + 4 * npers as u64 + 12 * (n as u64 + 1);
    let mut rows: Vec<u8> = Vec::new();
    let mut page2: Vec<u8> = Vec::new();
    let mut row_starts: Vec<usize> = Vec::new();
    let mut page_starts: Vec<usize> = Vec::new();
    let mut k: usize = 0;
    while k < n
        invariant
            k <= n,
            n == pages.len(),
            pv == page_views(pages@),
            recs.len() <= u32::MAX,
            common.len() <= COMMON_MAX,
            forall|j: int|
                0 <= j < pages.len() ==> (#[trigger] pages[j]).start < pages[j].end <= recs.len()
                    && pages[j].encodings.len() <= 256,
            rows@ == all_rows(recs@, base, pv, k as int),
            page2@ == all_pages(recs@, common@, base, pv, k as int),
            row_starts.len() == k,
            page_starts.len() == k,
            forall|j: int|
                0 <= j < k ==> #[trigger] row_starts[j] == all_rows(recs@, base, pv, j).len(),
            forall|j: int|
                0 <= j < k ==> #[trigger] page_starts[j] == all_pages(
                    recs@,
                    common@,
                    base,
                    pv,
                    j,
                ).len(),
        decreases n - k,
    {
        assert(pv[k as int] == pages[k as int]@);
        row_starts.push(rows.len());
        page_starts.push(page2.len());
        push_lsda_rows(&mut rows, recs, base, pages[k].start, pages[k].end);
        push_page(&mut page2, recs, &common, base, &pages[k]);
        k += 1;
    }
    let mut buf: Vec<u8> = Vec::new();
    assert(buf@ =~= Seq::<u8>::empty());
    push_header(&mut buf, common.len(), npers, n);
    proof {
        bytes::lemma_empty_left(header(common.len() as int, npers as int, n as int));
    }
    bytes::push32s(&mut buf, common.as_slice());
    bytes::push_zeros(&mut buf, 4 * npers);
    push_first_level(
        &mut buf,
        recs,
        &common,
        base,
        &pages,
        lsda_off,
        rows.len(),
        &row_starts,
        &page_starts,
    );
    push_last(&mut buf, &recs[recs.len() - 1], base, lsda_off, rows.len());
    bytes::append(&mut buf, rows.as_slice());
    bytes::append(&mut buf, page2.as_slice());
    buf
}

/// Encodes __unwind_info. The personality entries are image-relative
/// pointers to GOT slots, whose addresses are not final when the section is
/// sized: the personality functions are returned instead, to be patched in
/// behind the common encodings.
pub fn encode_unwind_info(entries: &Vec<UnwindEntry>, base: u64) -> (r: Result<
    (Vec<u8>, Vec<u32>),
    EncodeError,
>)
    ensures
        match r {
            Ok((buf, pers)) => unwind_info(entries@, base) == Ok::<
                (Seq<u8>, Seq<u32>),
                EncodeError,
            >((buf@, pers@)),
            Err(e) => unwind_info(entries@, base) == Err::<(Seq<u8>, Seq<u32>), EncodeError>(e),
        },
{
    if entries.len() == 0 {
        let none: Vec<u8> = Vec::new();
        let pers: Vec<u32> = Vec::new();
        assert(none@ =~= Seq::<u8>::empty());
        assert(pers@ =~= Seq::<u32>::empty());
        return Ok((none, pers));
    }
    if entries.len() as u64 > 0xffff_ffff {
        return Err(EncodeError::TooManyRecords);
    }
    let (v, pers) = match index_personalities(entries) {
        Ok(p) => p,
        Err(e) => return Err(e),
    };
    let sorted: Vec<UnwindEntry> = sort_entries(&v);
    let recs: Vec<UnwindEntry> = merge_entries(&sorted);
    let buf: Vec<u8> = write_section(&recs, pers.len(), base);
    Ok((buf, pers))
}

/// The pages follow each other from the first entry to the last.
pub proof fn lemma_pages_tile(
    recs: Seq<UnwindEntry>,
    common: Seq<u32>,
    end: int,
    acc: Seq<PageView>,
)
    requires
        0 <= end <= recs.len(),
        common.len() <= COMMON_MAX,
        forall|k: int|
            0 <= k < acc.len() - 1 ==> (#[trigger] acc[k]).end == acc[k + 1].start,
        acc.len() > 0 ==> acc[0].start == end && acc.last().end == recs.len(),
        acc.len() == 0 ==> end == recs.len(),
    ensures
        ({
            let pages = pages_to(recs, common, end, acc);
            &&& recs.len() > 0 ==> pages.len() > 0 && pages[0].start == 0 && pages.last().end
                == recs.len()
            &&& forall|k: int|
                0 <= k < pages.len() - 1 ==> (#[trigger] pages[k]).end == pages[k + 1].start
        }),
    decreases end,
{
    if end > 0 {
        lemma_fill(recs, common, end, end, Seq::empty());
        let page = page_before(recs, common, end);
        let next = seq![page] + acc;
        assert forall|k: int| 0 <= k < next.len() - 1 implies (#[trigger] next[k]).end == next[k
            + 1].start by {
            if k > 0 {
                assert(next[k] == acc[k - 1]);
                assert(next[k + 1] == acc[k]);
            }
        }
        lemma_pages_tile(recs, common, page.start, next);
    }
}

/// No page is larger than a page may be.
pub proof fn lemma_page_size(
    recs: Seq<UnwindEntry>,
    common: Seq<u32>,
    base: u64,
    end: int,
)
    requires
        0 < end <= recs.len(),
        common.len() <= COMMON_MAX,
    ensures
        page_bytes(recs, common, base, page_before(recs, common, end)).len() <= PAGE_SIZE,
{
    lemma_fill(recs, common, end, end, Seq::empty());
    let page = page_before(recs, common, end);
    lemma_entries_len(recs, common, page.encodings, base, page.start, page.end);
    bytes::lemma_le32s_len(page.encodings);
}

proof fn lemma_entries_len(
    recs: Seq<UnwindEntry>,
    common: Seq<u32>,
    encs: Seq<u32>,
    base: u64,
    lo: int,
    hi: int,
)
    requires
        lo <= hi,
    ensures
        compressed_entries(recs, common, encs, lo, hi).len() == 4 * (hi - lo),
        regular_entries(recs, base, lo, hi).len() == 8 * (hi - lo),
    decreases hi - lo,
{
    if lo < hi {
        lemma_entries_len(recs, common, encs, base, lo, hi - 1);
    }
}

/// The two halves of a compressed entry are the offset of the function from
/// the page's first one and the number of its encoding, whenever these fit.
pub proof fn lemma_compressed_entry(
    rec: UnwindEntry,
    first: u64,
    common: Seq<u32>,
    encs: Seq<u32>,
)
    requires
        first <= rec.addr < first + 0x100_0000,
        common.len() + encs.len() <= 256,
        common.contains(rec.encoding) || encs.contains(rec.encoding),
    ensures
        compressed_entry(rec, first, common, encs) % 0x100_0000 == rec.addr - first,
        (common + encs)[(compressed_entry(rec, first, common, encs) / 0x100_0000) as int]
            == rec.encoding,
{
    reveal(bytes::word32);
    reveal(bytes::word64);
    crate::util::lemma_position_of(common, rec.encoding, 0);
    crate::util::lemma_position_of(encs, rec.encoding, 0);
    let i = encoding_index(common, encs, rec.encoding);
    assert(0 <= i < 256);
    assert((common + encs)[i] == rec.encoding);
    let delta = rec.addr - first;
    let e = compressed_entry(rec, first, common, encs);
    assert(e == delta + 0x100_0000 * i);
}

} // verus!
