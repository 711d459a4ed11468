//! What a reader of __unwind_info finds in it.
use super::unwind_info::{
    continues, entry_addrs, fill, has_room, in_order, indexed, is_new, merged, page_before, UnwindEntry,
};
use crate::util;
use crate::util::{bytes, order};
use vstd::prelude::*;

verus! {

/// The number of the personality function in an encoding: bits 28 and 29.
pub open spec fn personality_number(encoding: u32) -> int {
    ((encoding >> 28u32) & 3) as int
}

/// True when an indexed entry is the entry with nothing changed but the
/// personality number, which counts `pers` from 1. An entry without a
/// personality function does not change at all.
pub open spec fn names_personality(e: UnwindEntry, out: UnwindEntry, pers: Seq<u32>) -> bool {
    let n = personality_number(out.encoding);
    &&& out == UnwindEntry { encoding: out.encoding, ..e }
    &&& out.encoding & 0xcfff_ffff == e.encoding & 0xcfff_ffff
    &&& match e.personality {
        Some(p) => e.encoding & 0x3000_0000 == 0 ==> 1 <= n <= pers.len() && pers[n - 1] == p,
        None => out == e,
    }
}

/// True when nothing occurs twice.
pub open spec fn all_distinct(pers: Seq<u32>) -> bool {
    forall|i: int, j: int| 0 <= i < j < pers.len() ==> #[trigger] pers[i] != #[trigger] pers[j]
}

proof fn lemma_number(e: UnwindEntry, n: u32)
    requires
        n <= 3,
    ensures
        e.encoding & 0x3000_0000 == 0 ==> personality_number(e.encoding | (n << 28u32)) == n,
        e.encoding & 0x3000_0000 == 0 ==> personality_number(e.encoding) == 0,
        (e.encoding | (n << 28u32)) & 0xcfff_ffff == e.encoding & 0xcfff_ffff,
{
    let c = e.encoding;
    assert((c & 0x3000_0000 == 0 ==> ((c | (n << 28u32)) >> 28u32) & 3 == n && (c >> 28u32) & 3 == 0)
        && (c | (n << 28u32)) & 0xcfff_ffff == c & 0xcfff_ffff) by (bit_vector)
        requires
            n <= 3,
    ;
}

proof fn lemma_indexed_from(
    entries: Seq<UnwindEntry>,
    i: int,
    pers: Seq<u32>,
    acc: Seq<UnwindEntry>,
)
    requires
        0 <= i <= entries.len(),
        acc.len() == i,
        pers.len() <= 3,
        all_distinct(pers),
        forall|k: int| 0 <= k < i ==> names_personality(entries[k], #[trigger] acc[k], pers),
        indexed(entries, i, pers, acc) is Ok,
    ensures
        ({
            let (v, ps) = indexed(entries, i, pers, acc)->Ok_0;
            &&& v.len() == entries.len()
            &&& pers.len() <= ps.len() <= 3
            &&& all_distinct(ps)
            &&& forall|k: int|
                0 <= k < entries.len() ==> names_personality(entries[k], #[trigger] v[k], ps)
        }),
    decreases entries.len() - i,
{
    if i < entries.len() {
        let e = entries[i];
        match e.personality {
            None => {
                lemma_indexed_from(entries, i + 1, pers, acc.push(e));
            },
            Some(p) => {
                util::lemma_position_of(pers, p, 0);
                let idx = util::position_of(pers, p, 0);
                let next = if idx < pers.len() {
                    pers
                } else {
                    pers.push(p)
                };
                let n = (idx + 1) as u32;
                lemma_number(e, n);
                let out = UnwindEntry {
                    encoding: super::unwind_info::with_index(e.encoding, idx),
                    ..e
                };
                assert(next[n - 1] == p);
                assert(names_personality(e, out, next));
                assert forall|k: int| 0 <= k < i implies names_personality(
                    entries[k],
                    #[trigger] acc[k],
                    next,
                ) by {
                    assert(names_personality(entries[k], acc[k], pers));
                }
                lemma_indexed_from(entries, i + 1, next, acc.push(out));
            },
        }
    }
}

/// An entry with a personality function, and with bits 28 and 29 of its
/// encoding clear, gets there a number from 1 to the number of personality
/// functions, and the function of that number is the entry's own. An entry
/// without one stays as it is, with number 0 if these bits were clear.
/// Nothing else of an entry changes, and no function is listed twice.
pub proof fn lemma_personality_numbers(entries: Seq<UnwindEntry>)
    requires
        indexed(entries, 0, Seq::empty(), Seq::empty()) is Ok,
    ensures
        ({
            let (v, pers) = indexed(entries, 0, Seq::empty(), Seq::empty())->Ok_0;
            &&& v.len() == entries.len()
            &&& pers.len() <= 3
            &&& all_distinct(pers)
            &&& forall|k: int|
                0 <= k < entries.len() ==> names_personality(entries[k], #[trigger] v[k], pers)
            &&& forall|k: int|
                0 <= k < entries.len() && entries[k].personality is None && entries[k].encoding
                    & 0x3000_0000 == 0 ==> personality_number((#[trigger] v[k]).encoding) == 0
        }),
{
    lemma_indexed_from(entries, 0, Seq::empty(), Seq::empty());
    let (v, pers) = indexed(entries, 0, Seq::empty(), Seq::empty())->Ok_0;
    assert forall|k: int|
        0 <= k < entries.len() && entries[k].personality is None && entries[k].encoding
            & 0x3000_0000 == 0 implies personality_number((#[trigger] v[k]).encoding) == 0 by {
        assert(names_personality(entries[k], v[k], pers));
        lemma_number(entries[k], 0);
    }
}

proof fn lemma_enough_from(
    entries: Seq<UnwindEntry>,
    i: int,
    pers: Seq<u32>,
    acc: Seq<UnwindEntry>,
    all: Seq<u32>,
)
    requires
        0 <= i <= entries.len(),
        all.len() <= 3,
        all_distinct(pers),
        forall|k: int| 0 <= k < pers.len() ==> all.contains(#[trigger] pers[k]),
        forall|k: int|
            0 <= k < entries.len() ==> ((#[trigger] entries[k]).personality matches Some(p)
                ==> all.contains(p)),
    ensures
        indexed(entries, i, pers, acc) is Ok,
    decreases entries.len() - i,
{
    if i < entries.len() {
        let e = entries[i];
        match e.personality {
            None => {
                lemma_enough_from(entries, i + 1, pers, acc.push(e), all);
            },
            Some(p) => {
                util::lemma_position_of(pers, p, 0);
                let idx = util::position_of(pers, p, 0);
                let next = if idx < pers.len() {
                    pers
                } else {
                    pers.push(p)
                };
                assert(all.contains(p));
                assert(all_distinct(next));
                lemma_distinct_fit(next, all);
                let out = UnwindEntry {
                    encoding: super::unwind_info::with_index(e.encoding, idx),
                    ..e
                };
                lemma_enough_from(entries, i + 1, next, acc.push(out), all);
            },
        }
    }
}

proof fn lemma_distinct_fit(pers: Seq<u32>, all: Seq<u32>)
    requires
        all.len() <= 3,
        all_distinct(pers),
        forall|k: int| 0 <= k < pers.len() ==> all.contains(#[trigger] pers[k]),
    ensures
        pers.len() <= 3,
{
    if pers.len() > 3 {
        assert(all.contains(pers[0]) && all.contains(pers[1]) && all.contains(pers[2])
            && all.contains(pers[3]));
        let a = all.index_of(pers[0]);
        let b = all.index_of(pers[1]);
        let c = all.index_of(pers[2]);
        let d = all.index_of(pers[3]);
        assert(all[a] == pers[0] && all[b] == pers[1] && all[c] == pers[2] && all[d] == pers[3]);
        assert(a != b && a != c && a != d && b != c && b != d && c != d);
    }
}

/// As long as all entries share three personality functions at most, the
/// numbers suffice; only a fourth one is refused.
pub proof fn lemma_personalities_suffice(entries: Seq<UnwindEntry>, all: Seq<u32>)
    requires
        all.len() <= 3,
        forall|k: int|
            0 <= k < entries.len() ==> ((#[trigger] entries[k]).personality matches Some(p)
                ==> all.contains(p)),
    ensures
        indexed(entries, 0, Seq::empty(), Seq::empty()) is Ok,
{
    lemma_enough_from(entries, 0, Seq::empty(), Seq::empty(), all);
}

/// True when the entries stand in the order of their addresses, and all code
/// lies within 4 GiB.
pub open spec fn is_sorted_code(entries: Seq<UnwindEntry>) -> bool {
    &&& forall|i: int, j: int|
        0 <= i <= j < entries.len() ==> (#[trigger] entries[i]).addr <= (#[trigger] entries[j]).addr
    &&& forall|i: int, j: int|
        0 <= i < entries.len() && 0 <= j < entries.len() ==> (#[trigger] entries[i]).addr
            + entries[i].code_len - (#[trigger] entries[j]).addr <= u32::MAX && entries[i].addr
            + entries[i].code_len <= u64::MAX
}

/// True when an entry covers the code of another one and unwinds it the same
/// way.
pub open spec fn stands_for(m: UnwindEntry, e: UnwindEntry) -> bool {
    &&& m.addr <= e.addr
    &&& e.addr + e.code_len <= m.addr + m.code_len
    &&& m.encoding == e.encoding
    &&& m.personality == e.personality
    &&& m.lsda == e.lsda
    &&& e.lsda is Some ==> m == e
}

/// True when one of the entries stands for another one.
pub open spec fn is_covered(list: Seq<UnwindEntry>, e: UnwindEntry) -> bool {
    exists|m: int| 0 <= m < list.len() && stands_for(#[trigger] list[m], e)
}

proof fn lemma_merged_from(entries: Seq<UnwindEntry>, i: int, acc: Seq<UnwindEntry>)
    requires
        0 <= i <= entries.len(),
        is_sorted_code(entries),
        i > 0 ==> acc.len() > 0,
        acc.len() > 0 ==> exists|a: int, b: int|
            0 <= a < i && 0 <= b < i && acc.last().addr == (#[trigger] entries[a]).addr
                && acc.last().addr + acc.last().code_len == (#[trigger] entries[b]).addr
                + entries[b].code_len,
        forall|k: int| 0 <= k < i ==> is_covered(acc, #[trigger] entries[k]),
    ensures
        forall|k: int|
            0 <= k < entries.len() ==> is_covered(
                merged(entries, i, acc),
                #[trigger] entries[k],
            ),
    decreases entries.len() - i,
{
    if i < entries.len() {
        let e = entries[i];
        if acc.len() > 0 && continues(acc.last(), e) {
            let last = acc.last();
            let (a, b) = choose|a: int, b: int|
                0 <= a < i && 0 <= b < i && acc.last().addr == (#[trigger] entries[a]).addr
                    && acc.last().addr + acc.last().code_len == (#[trigger] entries[b]).addr
                    + entries[b].code_len;
            assert(bytes::word64(last.addr + last.code_len) == last.addr + last.code_len) by {
                reveal(bytes::word64);
                assert(entries[b].addr + entries[b].code_len <= u64::MAX);
            }
            assert(last.code_len + e.code_len == e.addr + e.code_len - entries[a].addr);
            assert(entries[i].addr + entries[i].code_len - entries[a].addr <= u32::MAX);
            let len = bytes::word32(last.code_len + e.code_len);
            assert(len == last.code_len + e.code_len) by {
                reveal(bytes::word32);
            }
            let grown = UnwindEntry { code_len: len, ..last };
            let next = acc.drop_last().push(grown);
            assert forall|k: int| 0 <= k < i + 1 implies is_covered(
                next,
                #[trigger] entries[k],
            ) by {
                if k < i {
                    let m = choose|m: int|
                        0 <= m < acc.len() && stands_for(#[trigger] acc[m], entries[k]);
                    if m < acc.len() - 1 {
                        assert(next[m] == acc[m]);
                        assert(stands_for(next[m], entries[k]));
                    } else {
                        assert(next[acc.len() - 1] == grown);
                        assert(stands_for(next[acc.len() - 1], entries[k]));
                    }
                } else {
                    assert(next[acc.len() - 1] == grown);
                    assert(stands_for(next[acc.len() - 1], entries[k]));
                }
            }
            assert(next.last().addr == entries[a].addr && next.last().addr + next.last().code_len
                == entries[i].addr + entries[i].code_len);
            lemma_merged_from(entries, i + 1, next);
        } else {
            let next = acc.push(e);
            assert forall|k: int| 0 <= k < i + 1 implies is_covered(
                next,
                #[trigger] entries[k],
            ) by {
                if k < i {
                    let m = choose|m: int|
                        0 <= m < acc.len() && stands_for(#[trigger] acc[m], entries[k]);
                    assert(next[m] == acc[m]);
                    assert(stands_for(next[m], entries[k]));
                } else {
                    assert(stands_for(next[acc.len() as int], entries[k]));
                }
            }
            assert(next.last().addr == entries[i].addr);
            lemma_merged_from(entries, i + 1, next);
        }
    }
}

/// Merging loses nothing: for every entry there is one left that covers its
/// code and unwinds it the same way, with the same personality function and
/// language-specific data.
pub proof fn lemma_merging_loses_nothing(entries: Seq<UnwindEntry>, k: int)
    requires
        is_sorted_code(entries),
        0 <= k < entries.len(),
    ensures
        is_covered(merged(entries, 0, Seq::empty()), entries[k]),
{
    lemma_merged_from(entries, 0, Seq::empty());
    assert(entries[k] == entries[k]);
}

/// Sorting keeps every entry and puts them in the order of their addresses.
pub proof fn lemma_sorted_by_address(entries: Seq<UnwindEntry>)
    requires
        entries.len() <= usize::MAX,
    ensures
        in_order(entries).len() == entries.len(),
        forall|i: int, j: int|
            0 <= i <= j < entries.len() ==> (#[trigger] in_order(entries)[i]).addr <= (
            #[trigger] in_order(entries)[j]).addr,
        forall|k: int| 0 <= k < entries.len() ==> in_order(entries).contains(#[trigger] entries[k]),
        forall|k: int|
            0 <= k < entries.len() ==> entries.contains(#[trigger] in_order(entries)[k]),
{
    let keys = entry_addrs(entries);
    order::lemma_stable_order_exists(keys);
    let ord = order::stable_order_of(keys);
    let v = in_order(entries);
    assert forall|i: int, j: int| 0 <= i <= j < entries.len() implies (#[trigger] v[i]).addr <= (
    #[trigger] v[j]).addr by {
        if i < j {
            assert(order::item_before(keys, ord[i] as int, ord[j] as int));
            assert(keys[ord[i] as int] == v[i].addr && keys[ord[j] as int] == v[j].addr);
        }
    }
    assert forall|k: int| 0 <= k < entries.len() implies v.contains(#[trigger] entries[k]) by {
        assert(ord.contains(k as usize));
        let i = ord.index_of(k as usize);
        assert(v[i] == entries[k]);
    }
    assert forall|k: int| 0 <= k < entries.len() implies entries.contains(#[trigger] v[k]) by {
        assert(entries[ord[k] as int] == v[k]);
    }
}

proof fn lemma_filled(
    recs: Seq<UnwindEntry>,
    common: Seq<u32>,
    end: int,
    i: int,
    encs: Seq<u32>,
    k: int,
)
    requires
        0 <= i <= end <= recs.len(),
        i <= k < end ==> (common.contains(recs[k].encoding) || encs.contains(recs[k].encoding)),
        fill(recs, common, end, i, encs).0 <= k < end,
    ensures
        common.contains(recs[k].encoding) || fill(recs, common, end, i, encs).1.contains(
            recs[k].encoding,
        ),
    decreases i,
{
    if i > 0 && has_room(recs, common, end, i, encs) {
        let enc = recs[i - 1].encoding;
        util::lemma_position_of(common, enc, 0);
        util::lemma_position_of(encs, enc, 0);
        if is_new(common, encs, enc) {
            let next = encs.push(enc);
            assert(next[encs.len() as int] == enc);
            if encs.contains(recs[k].encoding) {
                let j = encs.index_of(recs[k].encoding);
                assert(next[j] == recs[k].encoding);
            }
            lemma_filled(recs, common, end, i - 1, next, k);
        } else {
            if util::position_of(common, enc, 0) < common.len() {
                assert(common[util::position_of(common, enc, 0)] == enc);
            } else {
                assert(encs[util::position_of(encs, enc, 0)] == enc);
            }
            lemma_filled(recs, common, end, i - 1, encs, k);
        }
    }
}

/// Every entry of a compressed page finds its encoding in the common table
/// or in the page's own one.
pub proof fn lemma_page_holds_encodings(
    recs: Seq<UnwindEntry>,
    common: Seq<u32>,
    end: int,
    k: int,
)
    requires
        0 < end <= recs.len(),
        page_before(recs, common, end).compressed,
        page_before(recs, common, end).start <= k < end,
    ensures
        common.contains(recs[k].encoding) || page_before(recs, common, end).encodings.contains(
            recs[k].encoding,
        ),
{
    lemma_filled(recs, common, end, end, Seq::empty(), k);
}

} // verus!
