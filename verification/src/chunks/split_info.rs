//! LC_SEGMENT_SPLIT_INFO data: the references between sections, so that
//! segments can be slid independently.
use crate::output_chunks::header::ChunkHeader;
use crate::util::{self, bytes, order, write_uleb};
use vstd::prelude::*;

verus! {

/// The table of references between sections.
#[derive(Debug)]
pub struct SplitInfoSection {
    pub hdr: ChunkHeader,
    /// The encoded table.
    pub contents: Vec<u8>,
}

impl SplitInfoSection {
    /// An empty table that is not placed yet.
    pub fn new() -> (r: SplitInfoSection)
        ensures
            r.hdr@ == crate::output_chunks::header::linkedit_header(),
            r.contents.len() == 0,
    {
        SplitInfoSection {
            hdr: ChunkHeader::linkedit(),
            contents: Vec::new(),
        }
    }
}

/// A reference from one section to another.
#[derive(Clone, Copy, Debug, PartialEq, Eq, Structural)]
pub struct SplitEntry {
    pub from_sect: u8,
    pub to_sect: u8,
    pub kind: u8,
    pub from_offset: u64,
    pub to_offset: u64,
}

pub const DYLD_CACHE_ADJ_V2_FORMAT: u8 = 0x7f;

pub const DYLD_CACHE_ADJ_V2_POINTER_32: u8 = 0x01;

pub const DYLD_CACHE_ADJ_V2_POINTER_64: u8 = 0x02;

pub const DYLD_CACHE_ADJ_V2_DELTA_32: u8 = 0x03;

pub const DYLD_CACHE_ADJ_V2_DELTA_64: u8 = 0x04;

pub const DYLD_CACHE_ADJ_V2_ARM64_ADRP: u8 = 0x05;

pub const DYLD_CACHE_ADJ_V2_ARM64_OFF12: u8 = 0x06;

pub const DYLD_CACHE_ADJ_V2_ARM64_BR26: u8 = 0x07;

pub const DYLD_CACHE_ADJ_V2_ARM_MOVW_MOVT: u8 = 0x08;

pub const DYLD_CACHE_ADJ_V2_ARM_BR24: u8 = 0x09;

pub const DYLD_CACHE_ADJ_V2_THUMB_MOVW_MOVT: u8 = 0x0a;

pub const DYLD_CACHE_ADJ_V2_THUMB_BR22: u8 = 0x0b;

pub const DYLD_CACHE_ADJ_V2_IMAGE_OFF_32: u8 = 0x0c;

pub const DYLD_CACHE_ADJ_V2_THREADED_POINTER_64: u8 = 0x0d;

/// How closely two entries are grouped: by their pair of sections, also by
/// the place they refer to, also by their kind.
#[derive(Clone, Copy, Debug, PartialEq, Eq, Structural)]
pub enum Level {
    Pair,
    Target,
    Kind,
}

/// True when two entries are in one group.
pub open spec fn grouped(level: Level, a: SplitEntry, b: SplitEntry) -> bool {
    &&& a.from_sect == b.from_sect
    &&& a.to_sect == b.to_sect
    &&& level != Level::Pair ==> a.to_offset == b.to_offset
    &&& level == Level::Kind ==> a.kind == b.kind
}

fn is_grouped(level: Level, a: &SplitEntry, b: &SplitEntry) -> (r: bool)
    ensures
        r == grouped(level, *a, *b),
{
    a.from_sect == b.from_sect && a.to_sect == b.to_sect && (level == Level::Pair || a.to_offset
        == b.to_offset) && (level != Level::Kind || a.kind == b.kind)
}

/// The order in which the table lists entries: by pair of sections, place
/// referred to, kind, and place referred from.
pub open spec fn listed_before(a: SplitEntry, b: SplitEntry) -> bool {
    if a.from_sect != b.from_sect {
        a.from_sect < b.from_sect
    } else if a.to_sect != b.to_sect {
        a.to_sect < b.to_sect
    } else if a.to_offset != b.to_offset {
        a.to_offset < b.to_offset
    } else if a.kind != b.kind {
        a.kind < b.kind
    } else {
        a.from_offset < b.from_offset
    }
}

/// True when entries are listed in order.
pub open spec fn in_table_order(s: Seq<SplitEntry>) -> bool {
    forall|i: int, j: int|
        0 <= i < j < s.len() ==> !listed_before(#[trigger] s[j], #[trigger] s[i])
}

/// Where the group that starts at `first` ends, looking from `i`.
pub open spec fn group_end(
    s: Seq<SplitEntry>,
    level: Level,
    first: int,
    i: int,
    end: int,
) -> int
    decreases end - i,
{
    if i < end && grouped(level, s[first], s[i]) {
        group_end(s, level, first, i + 1, end)
    } else {
        i
    }
}

/// The end of the group of the entry at `i`.
pub open spec fn end_of(s: Seq<SplitEntry>, level: Level, i: int, end: int) -> int {
    group_end(s, level, i, i + 1, end)
}

pub(crate) proof fn lemma_group_end(s: Seq<SplitEntry>, level: Level, first: int, i: int, end: int)
    requires
        i <= end,
    ensures
        i <= group_end(s, level, first, i, end) <= end,
        forall|k: int|
            i <= k < group_end(s, level, first, i, end) ==> grouped(
                level,
                s[first],
                #[trigger] s[k],
            ),
        group_end(s, level, first, i, end) < end ==> !grouped(
            level,
            s[first],
            s[group_end(s, level, first, i, end)],
        ),
    decreases end - i,
{
    if i < end && grouped(level, s[first], s[i]) {
        lemma_group_end(s, level, first, i + 1, end);
    }
}

fn find_end(s: &Vec<SplitEntry>, level: Level, i: usize, end: usize) -> (r: usize)
    requires
        i < end <= s.len(),
    ensures
        r == end_of(s@, level, i as int, end as int),
        i < r <= end,
{
    proof {
        lemma_group_end(s@, level, i as int, i + 1, end as int);
    }
    let mut k: usize = i + 1;
    while k < end && is_grouped(level, &s[i], &s[k])
        invariant
            i < k <= end <= s.len(),
            group_end(s@, level, i as int, k as int, end as int) == end_of(
                s@,
                level,
                i as int,
                end as int,
            ),
        decreases end - k,
    {
        k += 1;
    }
    k
}

/// The number of groups between `i` and `end`.
pub open spec fn group_count(s: Seq<SplitEntry>, level: Level, i: int, end: int) -> nat
    decreases end - i,
{
    let e = end_of(s, level, i, end);
    if i >= end || e <= i || e > end {
        0
    } else {
        1 + group_count(s, level, e, end)
    }
}

fn count_groups(s: &Vec<SplitEntry>, level: Level, i: usize, end: usize) -> (r: u64)
    requires
        i <= end <= s.len(),
    ensures
        r == group_count(s@, level, i as int, end as int),
        r <= end - i,
{
    let mut n: u64 = 0;
    let mut k: usize = i;
    while k < end
        invariant
            i <= k <= end <= s.len(),
            n <= k - i,
            n + group_count(s@, level, k as int, end as int) == group_count(
                s@,
                level,
                i as int,
                end as int,
            ),
        decreases end - k,
    {
        let e: usize = find_end(s, level, k, end);
        n += 1;
        k = e;
    }
    n
}

/// The places referred from, each as the distance from the one before.
pub open spec fn from_deltas(s: Seq<SplitEntry>, i: int, end: int, last: u64) -> Seq<u8>
    decreases end - i,
{
    if i >= end {
        Seq::empty()
    } else {
        util::uleb((s[i].from_offset - last) as nat) + from_deltas(
            s,
            i + 1,
            end,
            s[i].from_offset,
        )
    }
}

/// The kinds of reference to one place: each kind, and from where.
pub open spec fn kind_groups(s: Seq<SplitEntry>, i: int, end: int) -> Seq<u8>
    decreases end - i,
{
    let e = end_of(s, Level::Kind, i, end);
    if i >= end || e <= i || e > end {
        Seq::empty()
    } else {
        util::uleb(s[i].kind as nat) + util::uleb((e - i) as nat) + from_deltas(s, i, e, 0)
            + kind_groups(s, e, end)
    }
}

/// The places referred to in one pair of sections, each as the distance from
/// the one before.
pub open spec fn target_groups(s: Seq<SplitEntry>, i: int, end: int, last: u64) -> Seq<u8>
    decreases end - i,
{
    let e = end_of(s, Level::Target, i, end);
    if i >= end || e <= i || e > end {
        Seq::empty()
    } else {
        util::uleb((s[i].to_offset - last) as nat) + util::uleb(
            group_count(s, Level::Kind, i, e),
        ) + kind_groups(s, i, e) + target_groups(s, e, end, s[i].to_offset)
    }
}

/// The pairs of sections.
pub open spec fn pair_groups(s: Seq<SplitEntry>, i: int, end: int) -> Seq<u8>
    decreases end - i,
{
    let e = end_of(s, Level::Pair, i, end);
    if i >= end || e <= i || e > end {
        Seq::empty()
    } else {
        util::uleb(s[i].from_sect as nat) + util::uleb(s[i].to_sect as nat) + util::uleb(
            group_count(s, Level::Target, i, e),
        ) + target_groups(s, i, e, 0) + pair_groups(s, e, end)
    }
}

/// The table that lists sorted entries.
pub open spec fn table_of(s: Seq<SplitEntry>) -> Seq<u8> {
    let n = s.len() as int;
    bytes::padded8(
        (seq![DYLD_CACHE_ADJ_V2_FORMAT] + util::uleb(group_count(s, Level::Pair, 0, n))
            + pair_groups(s, 0, n)).push(0),
    )
}

fn push_deltas(buf: &mut Vec<u8>, s: &Vec<SplitEntry>, i: usize, end: usize)
    requires
        i < end <= s.len(),
        in_table_order(s@),
        forall|k: int| i <= k < end ==> grouped(Level::Kind, s[i as int], #[trigger] s[k]),
    ensures
        final(buf)@ == old(buf)@ + from_deltas(s@, i as int, end as int, 0),
{
    let ghost start = buf@;
    let mut last: u64 = 0;
    let mut k: usize = i;
    while k < end
        invariant
            i <= k <= end <= s.len(),
            in_table_order(s@),
            forall|k: int| i <= k < end ==> grouped(Level::Kind, s[i as int], #[trigger] s[k]),
            k > i ==> last == s[k - 1].from_offset,
            k == i ==> last == 0,
            buf@ + from_deltas(s@, k as int, end as int, last) == start + from_deltas(
                s@,
                i as int,
                end as int,
                0,
            ),
        decreases end - k,
    {
        let off: u64 = s[k].from_offset;
        proof {
            if k > i {
                assert(!listed_before(s@[k as int], s@[k - 1]));
                assert(grouped(Level::Kind, s[i as int], s[k as int]));
                assert(grouped(Level::Kind, s[i as int], s[k - 1]));
            }
            bytes::lemma_assoc(
                buf@,
                util::uleb((off - last) as nat),
                from_deltas(s@, k + 1, end as int, off),
            );
        }
        write_uleb(buf, off - last);
        last = off;
        k += 1;
    }
    proof {
        bytes::lemma_empty_right(buf@);
    }
}

proof fn lemma_head2(buf: Seq<u8>, a: Seq<u8>, b: Seq<u8>, c: Seq<u8>, d: Seq<u8>)
    ensures
        buf + (a + b + c + d) == (buf + a + b + c) + d,
{
    assert(buf + (a + b + c + d) =~= (buf + a + b + c) + d);
}

fn push_kinds(buf: &mut Vec<u8>, s: &Vec<SplitEntry>, i: usize, end: usize)
    requires
        i <= end <= s.len(),
        in_table_order(s@),
    ensures
        final(buf)@ == old(buf)@ + kind_groups(s@, i as int, end as int),
{
    let ghost start = buf@;
    let mut k: usize = i;
    while k < end
        invariant
            i <= k <= end <= s.len(),
            in_table_order(s@),
            buf@ + kind_groups(s@, k as int, end as int) == start + kind_groups(
                s@,
                i as int,
                end as int,
            ),
        decreases end - k,
    {
        let e: usize = find_end(s, Level::Kind, k, end);
        proof {
            lemma_group_end(s@, Level::Kind, k as int, k + 1, end as int);
            lemma_head2(
                buf@,
                util::uleb(s[k as int].kind as nat),
                util::uleb((e - k) as nat),
                from_deltas(s@, k as int, e as int, 0),
                kind_groups(s@, e as int, end as int),
            );
        }
        write_uleb(buf, s[k].kind as u64);
        write_uleb(buf, (e - k) as u64);
        push_deltas(buf, s, k, e);
        k = e;
    }
    proof {
        bytes::lemma_empty_right(buf@);
    }
}

fn push_targets(buf: &mut Vec<u8>, s: &Vec<SplitEntry>, i: usize, end: usize)
    requires
        i < end <= s.len(),
        in_table_order(s@),
        forall|k: int| i <= k < end ==> grouped(Level::Pair, s[i as int], #[trigger] s[k]),
    ensures
        final(buf)@ == old(buf)@ + target_groups(s@, i as int, end as int, 0),
{
    let ghost start = buf@;
    let mut last: u64 = 0;
    let mut k: usize = i;
    while k < end
        invariant
            i <= k <= end <= s.len(),
            in_table_order(s@),
            forall|k: int| i <= k < end ==> grouped(Level::Pair, s[i as int], #[trigger] s[k]),
            k > i ==> last == s[k - 1].to_offset,
            k == i ==> last == 0,
            buf@ + target_groups(s@, k as int, end as int, last) == start + target_groups(
                s@,
                i as int,
                end as int,
                0,
            ),
        decreases end - k,
    {
        let e: usize = find_end(s, Level::Target, k, end);
        let to: u64 = s[k].to_offset;
        let n: u64 = count_groups(s, Level::Kind, k, e);
        proof {
            lemma_group_end(s@, Level::Target, k as int, k + 1, end as int);
            if k > i {
                assert(!listed_before(s@[k as int], s@[k - 1]));
                assert(grouped(Level::Pair, s[i as int], s[k as int]));
                assert(grouped(Level::Pair, s[i as int], s[k - 1]));
            }
            assert(s[e - 1].to_offset == to) by {
                if e - 1 > k {
                    assert(grouped(Level::Target, s@[k as int], s@[e - 1]));
                }
            }
            lemma_head2(
                buf@,
                util::uleb((to - last) as nat),
                util::uleb(n as nat),
                kind_groups(s@, k as int, e as int),
                target_groups(s@, e as int, end as int, to),
            );
        }
        write_uleb(buf, to - last);
        write_uleb(buf, n);
        push_kinds(buf, s, k, e);
        last = to;
        k = e;
    }
    proof {
        bytes::lemma_empty_right(buf@);
    }
}

fn push_pairs(buf: &mut Vec<u8>, s: &Vec<SplitEntry>)
    requires
        in_table_order(s@),
    ensures
        final(buf)@ == old(buf)@ + pair_groups(s@, 0, s.len() as int),
{
    let ghost start = buf@;
    let end: usize = s.len();
    let mut k: usize = 0;
    while k < end
        invariant
            k <= end,
            end == s.len(),
            in_table_order(s@),
            buf@ + pair_groups(s@, k as int, end as int) == start + pair_groups(
                s@,
                0,
                end as int,
            ),
        decreases end - k,
    {
        let e: usize = find_end(s, Level::Pair, k, end);
        let n: u64 = count_groups(s, Level::Target, k, e);
        proof {
            lemma_group_end(s@, Level::Pair, k as int, k + 1, end as int);
            let a = util::uleb(s[k as int].from_sect as nat);
            let b = util::uleb(s[k as int].to_sect as nat);
            let c = util::uleb(n as nat);
            let d = target_groups(s@, k as int, e as int, 0);
            let rest = pair_groups(s@, e as int, end as int);
            assert(buf@ + (a + b + c + d + rest) =~= (buf@ + a + b + c + d) + rest);
        }
        write_uleb(buf, s[k].from_sect as u64);
        write_uleb(buf, s[k].to_sect as u64);
        write_uleb(buf, n);
        push_targets(buf, s, k, e);
        k = e;
    }
    proof {
        bytes::lemma_empty_right(buf@);
    }
}

/// The entries that positions select.
pub open spec fn picked(s: Seq<SplitEntry>, at: Seq<usize>) -> Seq<SplitEntry> {
    at.map_values(|i: usize| s[i as int])
}

/// The keys by which entries are sorted first.
pub open spec fn from_keys(s: Seq<SplitEntry>) -> Seq<u64> {
    s.map_values(|e: SplitEntry| e.from_offset)
}

/// The keys by which entries are then sorted, stably.
pub open spec fn group_keys(s: Seq<SplitEntry>) -> Seq<(u64, u64, u64)> {
    s.map_values(
        |e: SplitEntry|
            ((e.from_sect * 0x100 + e.to_sect) as u64, e.to_offset, e.kind as u64),
    )
}

/// The entries in the order of the table.
pub open spec fn sorted_entries(s: Seq<SplitEntry>) -> Seq<SplitEntry> {
    let by_from = picked(s, order::stable_order_of(from_keys(s)));
    picked(by_from, order::stable_order_of(group_keys(by_from)))
}

fn pick(s: &Vec<SplitEntry>, at: &Vec<usize>) -> (r: Vec<SplitEntry>)
    requires
        forall|i: int| 0 <= i < at.len() ==> (#[trigger] at[i]) < s.len(),
    ensures
        r@ == picked(s@, at@),
{
    let mut r: Vec<SplitEntry> = Vec::new();
    while r.len() < at.len()
        invariant
            r.len() <= at.len(),
            forall|i: int| 0 <= i < at.len() ==> (#[trigger] at[i]) < s.len(),
            r@ =~= picked(s@, at@).take(r.len() as int),
        decreases at.len() - r.len(),
    {
        let i: usize = at[r.len()];
        r.push(s[i]);
    }
    assert(r@ =~= picked(s@, at@));
    r
}

/// Sorting entries lists each as often as it was recorded, in the order of
/// the table.
pub proof fn lemma_sorted_entries(s: Seq<SplitEntry>)
    requires
        s.len() <= usize::MAX,
    ensures
        in_table_order(sorted_entries(s)),
        sorted_entries(s).len() == s.len(),
        sorted_entries(s).to_multiset() == s.to_multiset(),
{
    let keys = from_keys(s);
    let first = order::stable_order_of(keys);
    order::lemma_stable_order_exists(keys);
    order::lemma_stable_order_distinct(keys, first);
    order::lemma_rearranged(s, first);
    let by_from = picked(s, first);
    let keys2 = group_keys(by_from);
    let second = order::stable_order_of(keys2);
    order::lemma_stable_order_exists(keys2);
    order::lemma_stable_order_distinct(keys2, second);
    order::lemma_rearranged(by_from, second);
    let r = sorted_entries(s);
    assert(by_from =~= first.map_values(|i: usize| s[i as int]));
    assert(r =~= second.map_values(|i: usize| by_from[i as int]));
    assert forall|i: int, j: int| 0 <= i < j < r.len() implies !listed_before(
        #[trigger] r[j],
        #[trigger] r[i],
    ) by {
        let a = second[i] as int;
        let b = second[j] as int;
        assert(order::item_before(keys2, second[i] as int, second[j] as int));
        assert(r[i] == by_from[a]);
        assert(r[j] == by_from[b]);
        assert(keys2[a] == group_keys(by_from)[a]);
        assert(keys2[b] == group_keys(by_from)[b]);
        if listed_before(r[j], r[i]) && a < b {
            assert(order::item_before(keys, first[a] as int, first[b] as int));
            assert(by_from[a] == s[first[a] as int]);
            assert(by_from[b] == s[first[b] as int]);
            assert(keys[first[a] as int] == by_from[a].from_offset);
            assert(keys[first[b] as int] == by_from[b].from_offset);
        }
    }
}

fn sort_entries(s: &Vec<SplitEntry>) -> (r: Vec<SplitEntry>)
    ensures
        r@ == sorted_entries(s@),
        in_table_order(r@),
        r.len() == s.len(),
{
    let mut keys: Vec<u64> = Vec::new();
    while keys.len() < s.len()
        invariant
            keys.len() <= s.len(),
            keys@ =~= from_keys(s@).take(keys.len() as int),
        decreases s.len() - keys.len(),
    {
        let k: u64 = s[keys.len()].from_offset;
        keys.push(k);
    }
    assert(keys@ =~= from_keys(s@));
    let first: Vec<usize> = order::stable_order(keys.as_slice());
    let by_from: Vec<SplitEntry> = pick(s, &first);
    let mut keys2: Vec<(u64, u64, u64)> = Vec::new();
    while keys2.len() < by_from.len()
        invariant
            keys2.len() <= by_from.len(),
            keys2@ =~= group_keys(by_from@).take(keys2.len() as int),
        decreases by_from.len() - keys2.len(),
    {
        let e: SplitEntry = by_from[keys2.len()];
        keys2.push((e.from_sect as u64 * 0x100 + e.to_sect as u64, e.to_offset, e.kind as u64));
    }
    assert(keys2@ =~= group_keys(by_from@));
    let second: Vec<usize> = order::stable_order(keys2.as_slice());
    let r: Vec<SplitEntry> = pick(&by_from, &second);
    proof {
        lemma_sorted_entries(s@);
    }
    r
}

/// The table of references: empty if there are none.
pub open spec fn split_info(entries: Seq<SplitEntry>) -> Seq<u8> {
    if entries.len() == 0 {
        Seq::empty()
    } else {
        table_of(sorted_entries(entries))
    }
}

/// Encodes the table of references.
pub fn encode_split_info(entries: &Vec<SplitEntry>) -> (r: Vec<u8>)
    ensures
        r@ == split_info(entries@),
{
    let mut buf: Vec<u8> = Vec::new();
    if entries.len() == 0 {
        assert(buf@ =~= Seq::empty());
        return buf;
    }
    let s: Vec<SplitEntry> = sort_entries(entries);
    buf.push(DYLD_CACHE_ADJ_V2_FORMAT);
    assert(buf@ =~= seq![DYLD_CACHE_ADJ_V2_FORMAT]);
    let n: u64 = count_groups(&s, Level::Pair, 0, s.len());
    write_uleb(&mut buf, n);
    push_pairs(&mut buf, &s);
    buf.push(0);
    bytes::pad8(&mut buf);
    buf
}

} // verus!
