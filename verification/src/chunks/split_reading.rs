//! Reading the table of references between sections back: what a program
//! that slides segments finds in it.
use super::split_info::{Level, SplitEntry, DYLD_CACHE_ADJ_V2_FORMAT};
use crate::util::{self, bytes};
use vstd::prelude::*;

verus! {

/// Reads `n` places referred from, each given by its distance from the one
/// before, the first by that from `last`. `e` says the rest of the entries.
/// Gives the entries and the position behind them.
pub open spec fn read_froms(code: Seq<u8>, pos: int, n: nat, e: SplitEntry, last: int) -> Option<
    (Seq<SplitEntry>, int),
>
    decreases n,
{
    if n == 0 {
        Some((Seq::empty(), pos))
    } else {
        match util::uleb_decode(code, pos, 10) {
            None => None,
            Some((d, next)) => {
                let here = SplitEntry { from_offset: (last + d) as u64, ..e };
                match read_froms(code, next, (n - 1) as nat, e, last + d) {
                    None => None,
                    Some((rest, end)) => Some((seq![here] + rest, end)),
                }
            },
        }
    }
}

/// Reads `n` kinds of reference to one place.
pub open spec fn read_kinds(code: Seq<u8>, pos: int, n: nat, e: SplitEntry) -> Option<
    (Seq<SplitEntry>, int),
>
    decreases n,
{
    if n == 0 {
        Some((Seq::empty(), pos))
    } else {
        match util::uleb_decode(code, pos, 10) {
            None => None,
            Some((kind, p)) => match util::uleb_decode(code, p, 10) {
                None => None,
                Some((count, q)) => {
                    let here = SplitEntry { kind: kind as u8, ..e };
                    match read_froms(code, q, count, here, 0) {
                        None => None,
                        Some((xs, r)) => match read_kinds(code, r, (n - 1) as nat, e) {
                            None => None,
                            Some((rest, end)) => Some((xs + rest, end)),
                        },
                    }
                },
            },
        }
    }
}

/// Reads `n` places referred to, each given by its distance from the one
/// before, the first by that from `last`.
pub open spec fn read_targets(code: Seq<u8>, pos: int, n: nat, e: SplitEntry, last: int) -> Option<
    (Seq<SplitEntry>, int),
>
    decreases n,
{
    if n == 0 {
        Some((Seq::empty(), pos))
    } else {
        match util::uleb_decode(code, pos, 10) {
            None => None,
            Some((d, p)) => match util::uleb_decode(code, p, 10) {
                None => None,
                Some((count, q)) => {
                    let here = SplitEntry { to_offset: (last + d) as u64, ..e };
                    match read_kinds(code, q, count, here) {
                        None => None,
                        Some((xs, r)) => match read_targets(
                            code,
                            r,
                            (n - 1) as nat,
                            e,
                            last + d,
                        ) {
                            None => None,
                            Some((rest, end)) => Some((xs + rest, end)),
                        },
                    }
                },
            },
        }
    }
}

/// An entry of a pair of sections that says nothing else yet.
pub open spec fn of_pair(from_sect: u8, to_sect: u8) -> SplitEntry {
    SplitEntry { from_sect, to_sect, kind: 0, from_offset: 0, to_offset: 0 }
}

/// Reads `n` pairs of sections.
pub open spec fn read_pairs(code: Seq<u8>, pos: int, n: nat) -> Option<(Seq<SplitEntry>, int)>
    decreases n,
{
    if n == 0 {
        Some((Seq::empty(), pos))
    } else {
        match util::uleb_decode(code, pos, 10) {
            None => None,
            Some((from, p)) => match util::uleb_decode(code, p, 10) {
                None => None,
                Some((to, q)) => match util::uleb_decode(code, q, 10) {
                    None => None,
                    Some((count, r)) => match read_targets(
                        code,
                        r,
                        count,
                        of_pair(from as u8, to as u8),
                        0,
                    ) {
                        None => None,
                        Some((xs, t)) => match read_pairs(code, t, (n - 1) as nat) {
                            None => None,
                            Some((rest, end)) => Some((xs + rest, end)),
                        },
                    },
                },
            },
        }
    }
}

/// The entries that a table lists. `None` if it is malformed.
pub open spec fn entries_in(code: Seq<u8>) -> Option<Seq<SplitEntry>> {
    if code.len() == 0 {
        Some(Seq::empty())
    } else if code[0] != DYLD_CACHE_ADJ_V2_FORMAT {
        None
    } else {
        match util::uleb_decode(code, 1, 10) {
            None => None,
            Some((n, pos)) => match read_pairs(code, pos, n) {
                None => None,
                Some((es, _end)) => Some(es),
            },
        }
    }
}

proof fn lemma_froms(
    s: Seq<SplitEntry>,
    i: int,
    end: int,
    last: u64,
    e: SplitEntry,
    before: Seq<u8>,
    tail: Seq<u8>,
)
    requires
        0 <= i <= end <= s.len(),
        forall|k: int|
            i <= k < end ==> #[trigger] s[k] == (SplitEntry { from_offset: s[k].from_offset, ..e }),
        forall|a: int, b: int|
            i <= a <= b < end ==> (#[trigger] s[a]).from_offset <= (#[trigger] s[b]).from_offset,
        i < end ==> last <= s[i].from_offset,
    ensures
        ({
            let part = super::split_info::from_deltas(s, i, end, last);
            read_froms(
                before + part + tail,
                before.len() as int,
                (end - i) as nat,
                e,
                last as int,
            ) == Some((s.subrange(i, end), (before.len() + part.len()) as int))
        }),
    decreases end - i,
{
    let part = super::split_info::from_deltas(s, i, end, last);
    let code = before + part + tail;
    if i < end {
        let off = s[i].from_offset;
        let d = (off - last) as u64;
        let a = util::uleb(d as nat);
        let rest = super::split_info::from_deltas(s, i + 1, end, off);
        util::lemma_uleb_u64(d, before, rest + tail);
        assert(before + a + (rest + tail) =~= code);
        if i + 1 < end {
            assert(s[i].from_offset <= s[i + 1].from_offset);
        }
        lemma_froms(s, i + 1, end, off, e, before + a, tail);
        assert((before + a) + rest + tail =~= code);
        assert(seq![s[i]] + s.subrange(i + 1, end) =~= s.subrange(i, end));
    } else {
        assert(s.subrange(i, end) =~= Seq::empty());
    }
}

/// Where four parts of a table stand between what is around them.
proof fn lemma_parts(
    before: Seq<u8>,
    a: Seq<u8>,
    b: Seq<u8>,
    c: Seq<u8>,
    rest: Seq<u8>,
    tail: Seq<u8>,
)
    ensures
        ({
            let code = before + (a + b + c + rest) + tail;
            &&& code == before + a + (b + c + rest + tail)
            &&& code == (before + a) + b + (c + rest + tail)
            &&& code == (before + a + b) + c + (rest + tail)
            &&& code == (before + a + b + c) + rest + tail
        }),
{
    let code = before + (a + b + c + rest) + tail;
    assert(code =~= before + a + (b + c + rest + tail));
    assert(code =~= (before + a) + b + (c + rest + tail));
    assert(code =~= (before + a + b) + c + (rest + tail));
    assert(code =~= (before + a + b + c) + rest + tail);
}

/// Where five parts of a table stand between what is around them.
proof fn lemma_more_parts(
    before: Seq<u8>,
    a: Seq<u8>,
    b: Seq<u8>,
    c: Seq<u8>,
    d: Seq<u8>,
    rest: Seq<u8>,
    tail: Seq<u8>,
)
    ensures
        ({
            let code = before + (a + b + c + d + rest) + tail;
            &&& code == before + a + (b + c + d + rest + tail)
            &&& code == (before + a) + b + (c + d + rest + tail)
            &&& code == (before + a + b) + c + (d + rest + tail)
            &&& code == (before + a + b + c) + d + (rest + tail)
            &&& code == (before + a + b + c + d) + rest + tail
        }),
{
    let code = before + (a + b + c + d + rest) + tail;
    assert(code =~= before + a + (b + c + d + rest + tail));
    assert(code =~= (before + a) + b + (c + d + rest + tail));
    assert(code =~= (before + a + b) + c + (d + rest + tail));
    assert(code =~= (before + a + b + c) + d + (rest + tail));
    assert(code =~= (before + a + b + c + d) + rest + tail);
}

proof fn lemma_kinds(
    s: Seq<SplitEntry>,
    i: int,
    end: int,
    e: SplitEntry,
    before: Seq<u8>,
    tail: Seq<u8>,
)
    requires
        0 <= i <= end <= s.len() <= u64::MAX,
        super::split_info::in_table_order(s),
        forall|k: int|
            i <= k < end ==> super::split_info::grouped(Level::Target, e, #[trigger] s[k]),
    ensures
        ({
            let part = super::split_info::kind_groups(s, i, end);
            read_kinds(
                before + part + tail,
                before.len() as int,
                super::split_info::group_count(s, Level::Kind, i, end),
                e,
            ) == Some((s.subrange(i, end), (before.len() + part.len()) as int))
        }),
    decreases end - i,
{
    let part = super::split_info::kind_groups(s, i, end);
    let code = before + part + tail;
    if i < end {
        let m = super::split_info::end_of(s, Level::Kind, i, end);
        super::split_info::lemma_group_end(s, Level::Kind, i, i + 1, end);
        let here = SplitEntry { kind: s[i].kind, ..e };
        let a = util::uleb(s[i].kind as nat);
        let b = util::uleb((m - i) as nat);
        let c = super::split_info::from_deltas(s, i, m, 0);
        let rest = super::split_info::kind_groups(s, m, end);
        lemma_parts(before, a, b, c, rest, tail);
        util::lemma_uleb_u64(s[i].kind as u64, before, b + c + rest + tail);
        util::lemma_uleb_u64((m - i) as u64, before + a, c + rest + tail);
        assert forall|k: int| i <= k < m implies #[trigger] s[k] == (SplitEntry {
            from_offset: s[k].from_offset,
            ..here
        }) by {
            assert(super::split_info::grouped(Level::Target, e, s[k]));
            if k > i {
                assert(super::split_info::grouped(Level::Kind, s[i], s[k]));
            }
        }
        assert forall|x: int, y: int| i <= x <= y < m implies (#[trigger] s[x]).from_offset <= (
        #[trigger] s[y]).from_offset by {
            if x < y {
                assert(!super::split_info::listed_before(s[y], s[x]));
            }
        }
        lemma_froms(s, i, m, 0, here, before + a + b, rest + tail);
        lemma_kinds(s, m, end, e, before + a + b + c, tail);
        assert(s.subrange(i, m) + s.subrange(m, end) =~= s.subrange(i, end));
    } else {
        assert(s.subrange(i, end) =~= Seq::empty());
    }
}

proof fn lemma_count(s: Seq<SplitEntry>, level: Level, i: int, end: int)
    requires
        0 <= i <= end,
    ensures
        super::split_info::group_count(s, level, i, end) <= end - i,
    decreases end - i,
{
    if i < end {
        super::split_info::lemma_group_end(s, level, i, i + 1, end);
        lemma_count(s, level, super::split_info::end_of(s, level, i, end), end);
    }
}

proof fn lemma_targets(
    s: Seq<SplitEntry>,
    i: int,
    end: int,
    last: u64,
    e: SplitEntry,
    before: Seq<u8>,
    tail: Seq<u8>,
)
    requires
        0 <= i <= end <= s.len() <= u64::MAX,
        super::split_info::in_table_order(s),
        forall|k: int| i <= k < end ==> super::split_info::grouped(Level::Pair, e, #[trigger] s[k]),
        i < end ==> last <= s[i].to_offset,
    ensures
        ({
            let part = super::split_info::target_groups(s, i, end, last);
            read_targets(
                before + part + tail,
                before.len() as int,
                super::split_info::group_count(s, Level::Target, i, end),
                e,
                last as int,
            ) == Some((s.subrange(i, end), (before.len() + part.len()) as int))
        }),
    decreases end - i,
{
    let part = super::split_info::target_groups(s, i, end, last);
    let code = before + part + tail;
    if i < end {
        let m = super::split_info::end_of(s, Level::Target, i, end);
        super::split_info::lemma_group_end(s, Level::Target, i, i + 1, end);
        let to = s[i].to_offset;
        let n = super::split_info::group_count(s, Level::Kind, i, m);
        lemma_count(s, Level::Kind, i, m);
        let here = SplitEntry { to_offset: to, ..e };
        let a = util::uleb((to - last) as nat);
        let b = util::uleb(n);
        let c = super::split_info::kind_groups(s, i, m);
        let rest = super::split_info::target_groups(s, m, end, to);
        lemma_parts(before, a, b, c, rest, tail);
        util::lemma_uleb_u64((to - last) as u64, before, b + c + rest + tail);
        util::lemma_uleb_u64(n as u64, before + a, c + rest + tail);
        assert forall|k: int| i <= k < m implies super::split_info::grouped(
            Level::Target,
            here,
            #[trigger] s[k],
        ) by {
            assert(super::split_info::grouped(Level::Pair, e, s[k]));
            if k > i {
                assert(super::split_info::grouped(Level::Target, s[i], s[k]));
            }
        }
        lemma_kinds(s, i, m, here, before + a + b, rest + tail);
        if m < end {
            assert(!super::split_info::listed_before(s[m], s[i]));
            assert(super::split_info::grouped(Level::Pair, e, s[i]));
            assert(super::split_info::grouped(Level::Pair, e, s[m]));
        }
        lemma_targets(s, m, end, to, e, before + a + b + c, tail);
        assert(s.subrange(i, m) + s.subrange(m, end) =~= s.subrange(i, end));
    } else {
        assert(s.subrange(i, end) =~= Seq::empty());
    }
}

#[verifier::spinoff_prover]
#[verifier::rlimit(60)]
proof fn lemma_pairs(s: Seq<SplitEntry>, i: int, end: int, before: Seq<u8>, tail: Seq<u8>)
    requires
        0 <= i <= end <= s.len() <= u64::MAX,
        super::split_info::in_table_order(s),
    ensures
        ({
            let part = super::split_info::pair_groups(s, i, end);
            read_pairs(
                before + part + tail,
                before.len() as int,
                super::split_info::group_count(s, Level::Pair, i, end),
            ) == Some((s.subrange(i, end), (before.len() + part.len()) as int))
        }),
    decreases end - i,
{
    let part = super::split_info::pair_groups(s, i, end);
    let code = before + part + tail;
    if i < end {
        let m = super::split_info::end_of(s, Level::Pair, i, end);
        super::split_info::lemma_group_end(s, Level::Pair, i, i + 1, end);
        let n = super::split_info::group_count(s, Level::Target, i, m);
        lemma_count(s, Level::Target, i, m);
        let e = of_pair(s[i].from_sect, s[i].to_sect);
        let a = util::uleb(s[i].from_sect as nat);
        let b = util::uleb(s[i].to_sect as nat);
        let c = util::uleb(n);
        let d = super::split_info::target_groups(s, i, m, 0);
        let rest = super::split_info::pair_groups(s, m, end);
        lemma_more_parts(before, a, b, c, d, rest, tail);
        util::lemma_uleb_u64(s[i].from_sect as u64, before, b + c + d + rest + tail);
        util::lemma_uleb_u64(s[i].to_sect as u64, before + a, c + d + rest + tail);
        util::lemma_uleb_u64(n as u64, before + a + b, d + rest + tail);
        assert forall|k: int| i <= k < m implies super::split_info::grouped(
            Level::Pair,
            e,
            #[trigger] s[k],
        ) by {
            if k > i {
                assert(super::split_info::grouped(Level::Pair, s[i], s[k]));
            }
        }
        lemma_targets(s, i, m, 0, e, before + a + b + c, rest + tail);
        lemma_pairs(s, m, end, before + a + b + c + d, tail);
        assert(s.subrange(i, m) + s.subrange(m, end) =~= s.subrange(i, end));
    } else {
        assert(s.subrange(i, end) =~= Seq::empty());
    }
}

/// The table of references can be read back: it lists each recorded entry as
/// often as it was recorded and no other, in the order of the table.
pub proof fn lemma_split_info(entries: Seq<SplitEntry>)
    requires
        entries.len() <= usize::MAX,
    ensures
        ({
            let table = super::split_info::split_info(entries);
            &&& entries_in(table) matches Some(es)
            &&& es.to_multiset() == entries.to_multiset()
            &&& super::split_info::in_table_order(es)
        }),
{
    let s = super::split_info::sorted_entries(entries);
    super::split_info::lemma_sorted_entries(entries);
    if entries.len() == 0 {
        assert(entries =~= Seq::empty());
    } else {
        let n = s.len() as int;
        let count = super::split_info::group_count(s, Level::Pair, 0, n);
        lemma_count(s, Level::Pair, 0, n);
        let a = util::uleb(count);
        let groups = super::split_info::pair_groups(s, 0, n);
        let head = seq![DYLD_CACHE_ADJ_V2_FORMAT];
        let body = (head + a + groups).push(0);
        let tail = seq![0u8] + bytes::zeros(bytes::pad8_len(body.len() as int));
        let code = super::split_info::table_of(s);
        assert(code =~= head + a + (groups + tail));
        util::lemma_uleb_u64(count as u64, head, groups + tail);
        assert(code =~= (head + a) + groups + tail);
        lemma_pairs(s, 0, n, head + a, tail);
        assert(s.subrange(0, n) =~= s);
    }
}

} // verus!
