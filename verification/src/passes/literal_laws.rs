//! Equal literals become one, unequal ones stay apart.
use super::literals::{first_copy, literal_key, max_align, merged};
use crate::inputs::Inputs;
use crate::util::bytes;
use vstd::prelude::*;

verus! {

/// True for a literal that can be merged: live, not merged yet, and in a
/// section of strings or of literals of 4, 8 or 16 bytes.
pub open spec fn is_mergeable(x: Inputs, i: int) -> bool {
    let kind = x.header(x.isecs[i]).flags & 0xff;
    &&& 0 <= i < x.isecs.len()
    &&& x.isecs[i].is_alive
    &&& x.isecs[i].replacement == u32::MAX
    &&& kind == 0x2 || kind == 0x3 || kind == 0x4 || kind == 0xe
}

/// True when two literals are the same: of one type and with equal contents.
pub open spec fn same_literal(x: Inputs, i: int, j: int) -> bool {
    &&& x.header(x.isecs[i]).flags & 0xff == x.header(x.isecs[j]).flags & 0xff
    &&& x.isecs[i].data@ == x.isecs[j].data@
}

/// What stands for a literal after the merge: the copy that it is redirected
/// to, or itself.
pub open spec fn stand_in(x: Inputs, i: int) -> int {
    let s = merged(x)[i];
    if s.replacement == u32::MAX {
        i
    } else {
        s.replacement as int
    }
}

proof fn lemma_key(x: Inputs, i: int)
    requires
        0 <= i < x.isecs.len(),
    ensures
        literal_key(x, i) is Some <==> is_mergeable(x, i),
        is_mergeable(x, i) ==> literal_key(x, i)->0 == bytes::le32(
            x.header(x.isecs[i]).flags & 0xff,
        ) + x.isecs[i].data@,
{
}

proof fn lemma_keys_differ(x: Inputs, i: int, j: int)
    requires
        is_mergeable(x, i),
        is_mergeable(x, j),
        literal_key(x, i) == literal_key(x, j),
    ensures
        same_literal(x, i, j),
{
    let a = x.header(x.isecs[i]).flags & 0xff;
    let b = x.header(x.isecs[j]).flags & 0xff;
    let s = bytes::le32(a) + x.isecs[i].data@;
    let t = bytes::le32(b) + x.isecs[j].data@;
    lemma_key(x, i);
    lemma_key(x, j);
    bytes::lemma_le32_round_trip(a);
    bytes::lemma_le32_round_trip(b);
    assert(bytes::le32(a) =~= s.take(4));
    assert(bytes::le32(b) =~= t.take(4));
    assert(x.isecs[i].data@ =~= s.skip(4));
    assert(x.isecs[j].data@ =~= t.skip(4));
}

proof fn lemma_first(x: Inputs, key: Seq<u8>, from: int, i: int)
    requires
        0 <= from <= i < x.isecs.len(),
        literal_key(x, i) == Some(key),
    ensures
        from <= first_copy(x, key, from) <= i,
        literal_key(x, first_copy(x, key, from)) == Some(key),
    decreases i - from,
{
    if literal_key(x, from) != Some(key) {
        lemma_first(x, key, from + 1, i);
    }
}

proof fn lemma_stand_in(x: Inputs, i: int)
    requires
        x.isecs.len() < u32::MAX,
        is_mergeable(x, i),
    ensures
        stand_in(x, i) == first_copy(x, literal_key(x, i)->0, 0),
        0 <= stand_in(x, i) <= i,
        literal_key(x, stand_in(x, i)) == literal_key(x, i),
{
    lemma_key(x, i);
    lemma_first(x, literal_key(x, i)->0, 0, i);
}

/// The same literals get one stand-in, and different ones different ones:
/// two literals share theirs exactly if they have the same type and
/// contents. The stand-in is such a literal itself and stays.
pub proof fn lemma_equal_literals_share(x: Inputs, i: int, j: int)
    requires
        x.isecs.len() < u32::MAX,
        is_mergeable(x, i),
        is_mergeable(x, j),
    ensures
        stand_in(x, i) == stand_in(x, j) <==> same_literal(x, i, j),
        is_mergeable(x, stand_in(x, i)),
        same_literal(x, i, stand_in(x, i)),
        merged(x)[stand_in(x, i)].replacement == u32::MAX,
{
    lemma_key(x, i);
    lemma_key(x, j);
    lemma_stand_in(x, i);
    lemma_stand_in(x, j);
    let w = stand_in(x, i);
    lemma_key(x, w);
    lemma_keys_differ(x, i, w);
    lemma_stand_in(x, w);
    if stand_in(x, i) == stand_in(x, j) {
        lemma_keys_differ(x, i, j);
    }
}

proof fn lemma_align(x: Inputs, i: int, n: int, j: int)
    requires
        0 <= i < x.isecs.len(),
        n <= x.isecs.len(),
        i <= j < n,
        literal_key(x, j) == literal_key(x, i),
    ensures
        max_align(x, i, n) >= x.isecs[j].p2align,
        max_align(x, i, n) >= x.isecs[i].p2align,
    decreases n,
{
    if n > i + 1 {
        if j < n - 1 {
            lemma_align(x, i, n - 1, j);
        } else {
            lemma_align(x, i, n - 1, i);
        }
    }
}

/// The stand-in is aligned as strictly as any of the literals that it stands
/// for, and the merge changes nothing else of what stays.
pub proof fn lemma_stand_in_is_aligned(x: Inputs, j: int)
    requires
        x.isecs.len() < u32::MAX,
        is_mergeable(x, j),
    ensures
        merged(x)[stand_in(x, j)].p2align >= x.isecs[j].p2align,
        merged(x)[stand_in(x, j)] == (crate::input_sections::InputSection {
            p2align: merged(x)[stand_in(x, j)].p2align,
            ..x.isecs[stand_in(x, j)]
        }),
{
    lemma_key(x, j);
    lemma_stand_in(x, j);
    let w = stand_in(x, j);
    lemma_key(x, w);
    lemma_stand_in(x, w);
    lemma_align(x, w, x.isecs.len() as int, j);
}

/// What is no mergeable literal stays as it is.
pub proof fn lemma_others_stay(x: Inputs, i: int)
    requires
        0 <= i < x.isecs.len(),
        !is_mergeable(x, i),
    ensures
        merged(x)[i] == x.isecs[i],
{
    lemma_key(x, i);
}

} // verus!
