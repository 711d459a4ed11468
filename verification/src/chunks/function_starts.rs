//! LC_FUNCTION_STARTS data: delta-encoded function addresses.
use crate::output_chunks::header::ChunkHeader;
use crate::util::{self, bytes, order, write_uleb};
use vstd::prelude::*;

verus! {

/// The table of function addresses.
#[derive(Debug)]
pub struct FunctionStartsSection {
    pub hdr: ChunkHeader,
    /// The encoded table.
    pub contents: Vec<u8>,
}

impl FunctionStartsSection {
    /// An empty table that is not placed yet.
    pub fn new() -> (r: FunctionStartsSection)
        ensures
            r.hdr@ == crate::output_chunks::header::linkedit_header(),
            r.contents.len() == 0,
    {
        FunctionStartsSection {
            hdr: ChunkHeader::linkedit(),
            contents: Vec::new(),
        }
    }
}

/// Addresses from `i` on, each as the distance from the one before.
pub open spec fn deltas(addrs: Seq<u64>, i: int, last: u64) -> Seq<u8>
    decreases addrs.len() - i,
{
    if i < 0 || i >= addrs.len() {
        Seq::empty()
    } else {
        util::uleb((addrs[i] - last) as nat) + deltas(addrs, i + 1, addrs[i])
    }
}

/// The table of distinct function addresses, relative to the image base.
pub open spec fn starts_table(addrs: Seq<u64>, base: u64) -> Seq<u8> {
    bytes::padded8(deltas(order::distinct_sorted(addrs), 0, base).push(0))
}

/// Encodes the table of function addresses. `None` if a function lies below
/// the image base.
pub fn encode_function_starts(addrs: &Vec<u64>, base: u64) -> (r: Option<Vec<u8>>)
    ensures
        match r {
            Some(b) => b@ == starts_table(addrs@, base) && forall|i: int|
                0 <= i < addrs.len() ==> base <= #[trigger] addrs[i],
            None => exists|i: int| 0 <= i < addrs.len() && (#[trigger] addrs[i]) < base,
        },
{
    let mut i: usize = 0;
    while i < addrs.len()
        invariant
            i <= addrs.len(),
            forall|k: int| 0 <= k < i ==> base <= #[trigger] addrs[k],
        decreases addrs.len() - i,
    {
        if addrs[i] < base {
            assert(addrs[i as int] < base);
            return None;
        }
        i += 1;
    }
    let sorted: Vec<u64> = order::sort_distinct(addrs.as_slice());
    proof {
        order::lemma_distinct_sorted(addrs@);
    }
    let mut buf: Vec<u8> = Vec::new();
    let mut last: u64 = base;
    let mut i: usize = 0;
    proof {
        bytes::lemma_empty_left(deltas(sorted@, 0, base));
        assert(buf@ =~= Seq::empty());
    }
    while i < sorted.len()
        invariant
            i <= sorted.len(),
            forall|a: int, b: int| 0 <= a < b < sorted.len() ==> sorted[a] < sorted[b],
            forall|k: int| 0 <= k < sorted.len() ==> base <= #[trigger] sorted[k],
            i == 0 ==> last == base,
            i > 0 ==> last == sorted[i - 1],
            buf@ + deltas(sorted@, i as int, last) == deltas(sorted@, 0, base),
        decreases sorted.len() - i,
    {
        let a: u64 = sorted[i];
        proof {
            bytes::lemma_assoc(
                buf@,
                util::uleb((a - last) as nat),
                deltas(sorted@, i + 1, a),
            );
        }
        write_uleb(&mut buf, a - last);
        last = a;
        i += 1;
    }
    proof {
        bytes::lemma_empty_right(buf@);
    }
    buf.push(0);
    bytes::pad8(&mut buf);
    Some(buf)
}

/// The addresses that a table lists from `pos` on: each distance is added to
/// the address before, up to the first zero.
pub open spec fn listed_from(table: Seq<u8>, pos: int, last: int) -> Seq<int>
    decreases table.len() - pos,
{
    match util::uleb_decode(table, pos, 10) {
        Some((v, next)) => if v == 0 || next <= pos || next > table.len() {
            Seq::empty()
        } else {
            seq![last + v] + listed_from(table, next, last + v)
        },
        None => Seq::empty(),
    }
}

proof fn lemma_listed(addrs: Seq<u64>, i: int, last: u64, before: Seq<u8>, after: Seq<u8>)
    requires
        0 <= i <= addrs.len(),
        forall|a: int, b: int| 0 <= a < b < addrs.len() ==> addrs[a] < addrs[b],
        i < addrs.len() ==> last < addrs[i],
        after.len() > 0,
        after[0] == 0,
    ensures
        listed_from(before + deltas(addrs, i, last) + after, before.len() as int, last as int)
            == addrs.map_values(|a: u64| a as int).skip(i),
    decreases addrs.len() - i,
{
    let table = before + deltas(addrs, i, last) + after;
    let goal = addrs.map_values(|a: u64| a as int);
    if i >= addrs.len() {
        assert(table[before.len() as int] == 0);
        assert(util::uleb_decode(table, before.len() as int, 10) == Some(
            (0nat, before.len() as int + 1),
        ));
        assert(goal.skip(i) =~= Seq::empty());
    } else {
        let v = (addrs[i] - last) as u64;
        let rest = deltas(addrs, i + 1, addrs[i]);
        let head = util::uleb(v as nat);
        util::lemma_uleb_u64(v, before, rest + after);
        assert(before + head + (rest + after) =~= table);
        assert(before + head + rest + after =~= table);
        assert(head.len() > 0);
        lemma_listed(addrs, i + 1, addrs[i], before + head, after);
        assert(goal.skip(i) =~= seq![addrs[i] as int] + goal.skip(i + 1));
    }
}

/// A reader of the table gets back the distinct function addresses in
/// ascending order.
pub proof fn lemma_starts_table(addrs: Seq<u64>, base: u64)
    requires
        addrs.len() <= usize::MAX,
        forall|i: int| 0 <= i < addrs.len() ==> base < #[trigger] addrs[i],
    ensures
        listed_from(starts_table(addrs, base), 0, base as int) == order::distinct_sorted(
            addrs,
        ).map_values(|a: u64| a as int),
{
    let sorted = order::distinct_sorted(addrs);
    order::lemma_distinct_sorted(addrs);
    let d = deltas(sorted, 0, base);
    let after = seq![0u8] + bytes::zeros(bytes::pad8_len(d.push(0).len() as int));
    assert(starts_table(addrs, base) =~= Seq::<u8>::empty() + d + after);
    lemma_listed(sorted, 0, base, Seq::empty(), after);
    assert(sorted.map_values(|a: u64| a as int).skip(0) =~= sorted.map_values(
        |a: u64| a as int,
    ));
}

} // verus!
