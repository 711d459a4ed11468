//! Filtering of lists.
use vstd::prelude::*;

verus! {

/// How many of the first `n` elements are kept.
pub open spec fn count_kept(keep: Seq<bool>, n: int) -> int
    decreases n,
{
    if n <= 0 {
        0
    } else {
        count_kept(keep, n - 1) + if keep[n - 1] {
            1int
        } else {
            0
        }
    }
}

/// The kept ones among the first `n` elements.
pub open spec fn kept_to<T>(s: Seq<T>, keep: Seq<bool>, n: int) -> Seq<T>
    decreases n,
{
    if n <= 0 {
        Seq::empty()
    } else if keep[n - 1] {
        kept_to(s, keep, n - 1).push(s[n - 1])
    } else {
        kept_to(s, keep, n - 1)
    }
}

/// The kept elements.
pub open spec fn kept<T>(s: Seq<T>, keep: Seq<bool>) -> Seq<T> {
    kept_to(s, keep, s.len() as int)
}

/// A kept element's new position is below the number of kept elements.
pub proof fn lemma_count_kept(keep: Seq<bool>, i: int)
    requires
        0 <= i < keep.len(),
    ensures
        0 <= count_kept(keep, i) <= i,
        count_kept(keep, i) <= count_kept(keep, keep.len() as int) <= keep.len(),
        keep[i] ==> count_kept(keep, i) < count_kept(keep, keep.len() as int),
    decreases i,
{
    lemma_count_range(keep, i, keep.len() as int);
    lemma_count_range(keep, i + 1, keep.len() as int);
    lemma_count_range(keep, 0, i);
}

proof fn lemma_count_range(keep: Seq<bool>, a: int, b: int)
    requires
        0 <= a <= b <= keep.len(),
    ensures
        count_kept(keep, a) <= count_kept(keep, b) <= count_kept(keep, a) + (b - a),
    decreases b,
{
    if a < b {
        lemma_count_range(keep, a, b - 1);
    }
}

/// The kept elements are elements, as many as are counted, each at its
/// counted position.
pub proof fn lemma_kept<T>(s: Seq<T>, keep: Seq<bool>, n: int)
    requires
        0 <= n <= s.len(),
        keep.len() == s.len(),
    ensures
        kept_to(s, keep, n).len() == count_kept(keep, n),
        forall|k: int|
            0 <= k < kept_to(s, keep, n).len() ==> exists|j: int|
                0 <= j < n && #[trigger] s[j] == #[trigger] kept_to(s, keep, n)[k],
        forall|j: int|
            0 <= j < n && #[trigger] keep[j] ==> 0 <= count_kept(keep, j) < kept_to(
                s,
                keep,
                n,
            ).len() && kept_to(s, keep, n)[count_kept(keep, j)] == s[j],
    decreases n,
{
    if n > 0 {
        lemma_kept(s, keep, n - 1);
        let before = kept_to(s, keep, n - 1);
        let after = kept_to(s, keep, n);
        assert forall|k: int| 0 <= k < after.len() implies exists|j: int|
            0 <= j < n && #[trigger] s[j] == #[trigger] after[k] by {
            if k < before.len() {
                assert(after[k] == before[k]);
                let j = choose|j: int| 0 <= j < n - 1 && #[trigger] s[j] == before[k];
                assert(s[j] == after[k]);
            } else {
                assert(s[n - 1] == after[k]);
            }
        }
        lemma_count_kept(keep, n - 1);
    }
}

/// Counts the kept elements before each one.
pub fn count_all(keep: &Vec<bool>) -> (r: Vec<usize>)
    ensures
        r.len() == keep.len(),
        forall|k: int| 0 <= k < r.len() ==> #[trigger] r[k] == count_kept(keep@, k),
{
    let mut r: Vec<usize> = Vec::new();
    let mut n: usize = 0;
    while r.len() < keep.len()
        invariant
            r.len() <= keep.len(),
            n == count_kept(keep@, r.len() as int),
            n <= r.len(),
            forall|k: int| 0 <= k < r.len() ==> #[trigger] r[k] == count_kept(keep@, k),
        decreases keep.len() - r.len(),
    {
        let keeps: bool = keep[r.len()];
        r.push(n);
        if keeps {
            n += 1;
        }
    }
    r
}

/// Drops the elements that are not kept.
pub fn retain<T>(v: &mut Vec<T>, keep: &Vec<bool>)
    requires
        keep.len() == old(v).len(),
    ensures
        final(v)@ == kept(old(v)@, keep@),
{
    let ghost start = v@;
    let ghost goal = kept(start, keep@);
    let mut rev: Vec<T> = Vec::new();
    assert(goal + rev@.reverse() =~= goal);
    assert(v@ =~= start.take(v.len() as int));
    while v.len() > 0
        invariant
            keep.len() == start.len(),
            v.len() <= start.len(),
            v@ == start.take(v.len() as int),
            kept_to(start, keep@, v.len() as int) + rev@.reverse() == goal,
        decreases v.len(),
    {
        let ghost before = rev@;
        let ghost n = v.len() as int;
        match v.pop() {
            Some(e) => {
                assert(e == start[n - 1]);
                assert(v@ =~= start.take(v.len() as int));
                if keep[v.len()] {
                    rev.push(e);
                    assert(kept_to(start, keep@, n - 1) + rev@.reverse() =~= kept_to(
                        start,
                        keep@,
                        n,
                    ) + before.reverse());
                }
            },
            None => {},
        }
    }
    assert(rev@.reverse() =~= goal);
    assert(v@ =~= Seq::empty());
    assert(v@ + rev@.reverse() =~= goal);
    while rev.len() > 0
        invariant
            v@ + rev@.reverse() == goal,
        decreases rev.len(),
    {
        let ghost before = rev@;
        let ghost done = v@;
        match rev.pop() {
            Some(e) => {
                v.push(e);
                assert(v@ + rev@.reverse() =~= done + before.reverse());
            },
            None => {},
        }
    }
    assert(v@ =~= goal);
}

} // verus!
