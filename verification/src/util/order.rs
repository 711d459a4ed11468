//! Orders and stable sorting.
use vstd::prelude::*;

verus! {

/// A key with a strict weak order.
pub trait SortKey: Sized {
    /// True when `self` sorts before `other`.
    spec fn before(&self, other: &Self) -> bool;

    /// Nothing sorts before itself.
    proof fn irreflexive(a: &Self)
        ensures
            !a.before(a),
    ;

    /// The order is transitive.
    proof fn transitive(a: &Self, b: &Self, c: &Self)
        requires
            a.before(b),
            b.before(c),
        ensures
            a.before(c),
    ;

    /// A key between two others is not tied with both unless they tie.
    proof fn weak(a: &Self, b: &Self, c: &Self)
        requires
            a.before(c),
        ensures
            a.before(b) || b.before(c),
    ;

    /// Decides the order.
    fn is_before(&self, other: &Self) -> (r: bool)
        ensures
            r == self.before(other),
    ;
}

impl SortKey for u64 {
    open spec fn before(&self, other: &Self) -> bool {
        *self < *other
    }

    proof fn irreflexive(a: &Self) {
    }

    proof fn transitive(a: &Self, b: &Self, c: &Self) {
    }

    proof fn weak(a: &Self, b: &Self, c: &Self) {
    }

    fn is_before(&self, other: &Self) -> (r: bool) {
        *self < *other
    }
}

/// Triples compare by their first difference.
impl SortKey for (u64, u64, u64) {
    open spec fn before(&self, other: &Self) -> bool {
        self.0 < other.0 || (self.0 == other.0 && (self.1 < other.1 || (self.1 == other.1 && self.2
            < other.2)))
    }

    proof fn irreflexive(a: &Self) {
    }

    proof fn transitive(a: &Self, b: &Self, c: &Self) {
    }

    proof fn weak(a: &Self, b: &Self, c: &Self) {
    }

    fn is_before(&self, other: &Self) -> (r: bool) {
        self.0 < other.0 || (self.0 == other.0 && (self.1 < other.1 || (self.1 == other.1 && self.2
            < other.2)))
    }
}

/// Lexicographic order of byte strings: the first difference decides, and
/// a proper prefix comes first.
pub open spec fn lex_before(a: Seq<u8>, b: Seq<u8>) -> bool
    decreases a.len(),
{
    if b.len() == 0 {
        false
    } else if a.len() == 0 {
        true
    } else if a[0] != b[0] {
        a[0] < b[0]
    } else {
        lex_before(a.drop_first(), b.drop_first())
    }
}

pub proof fn lemma_lex_irreflexive(a: Seq<u8>)
    ensures
        !lex_before(a, a),
    decreases a.len(),
{
    if a.len() > 0 {
        lemma_lex_irreflexive(a.drop_first());
    }
}

pub proof fn lemma_lex_transitive(a: Seq<u8>, b: Seq<u8>, c: Seq<u8>)
    requires
        lex_before(a, b),
        lex_before(b, c),
    ensures
        lex_before(a, c),
    decreases a.len(),
{
    if a.len() > 0 && b.len() > 0 && c.len() > 0 && a[0] == b[0] && b[0] == c[0] {
        lemma_lex_transitive(a.drop_first(), b.drop_first(), c.drop_first());
    }
}

/// Two byte strings that neither precede the other are equal.
pub proof fn lemma_lex_total(a: Seq<u8>, b: Seq<u8>)
    ensures
        lex_before(a, b) || lex_before(b, a) || a == b,
    decreases a.len(),
{
    if a.len() > 0 && b.len() > 0 && a[0] == b[0] {
        lemma_lex_total(a.drop_first(), b.drop_first());
        let (s, t) = (a.drop_first(), b.drop_first());
        if s == t {
            assert(a.len() == s.len() + 1 && b.len() == t.len() + 1);
            assert forall|i: int| 0 <= i < a.len() implies a[i] == b[i] by {
                if i > 0 {
                    assert(s[i - 1] == a[i] && t[i - 1] == b[i]);
                }
            }
            assert(a =~= b);
        }
    } else if a.len() == 0 && b.len() == 0 {
        assert(a =~= b);
    }
}

/// Decides the lexicographic order.
pub fn is_lex_before(a: &[u8], b: &[u8]) -> (r: bool)
    ensures
        r == lex_before(a@, b@),
{
    let mut i: usize = 0;
    assert(a@.skip(0) =~= a@ && b@.skip(0) =~= b@);
    while i < a.len() && i < b.len()
        invariant
            i <= a.len(),
            i <= b.len(),
            lex_before(a@, b@) == lex_before(a@.skip(i as int), b@.skip(i as int)),
        decreases a.len() - i,
    {
        if a[i] != b[i] {
            return a[i] < b[i];
        }
        proof {
            assert(a@.skip(i as int).drop_first() =~= a@.skip(i + 1));
            assert(b@.skip(i as int).drop_first() =~= b@.skip(i + 1));
        }
        i += 1;
    }
    i < b.len()
}

impl SortKey for Vec<u8> {
    open spec fn before(&self, other: &Self) -> bool {
        lex_before(self@, other@)
    }

    proof fn irreflexive(a: &Self) {
        lemma_lex_irreflexive(a@);
    }

    proof fn transitive(a: &Self, b: &Self, c: &Self) {
        lemma_lex_transitive(a@, b@, c@);
    }

    proof fn weak(a: &Self, b: &Self, c: &Self) {
        lemma_lex_total(a@, b@);
        if lex_before(b@, a@) {
            lemma_lex_transitive(b@, a@, c@);
        }
    }

    fn is_before(&self, other: &Self) -> (r: bool) {
        is_lex_before(self.as_slice(), other.as_slice())
    }
}

/// Names compare as byte strings.
impl<'a> SortKey for &'a Vec<u8> {
    open spec fn before(&self, other: &Self) -> bool {
        lex_before(self@, other@)
    }

    proof fn irreflexive(a: &Self) {
        lemma_lex_irreflexive(a@);
    }

    proof fn transitive(a: &Self, b: &Self, c: &Self) {
        lemma_lex_transitive(a@, b@, c@);
    }

    proof fn weak(a: &Self, b: &Self, c: &Self) {
        lemma_lex_total(a@, b@);
        if lex_before(b@, a@) {
            lemma_lex_transitive(b@, a@, c@);
        }
    }

    fn is_before(&self, other: &Self) -> (r: bool) {
        is_lex_before(self.as_slice(), other.as_slice())
    }
}

/// True when item `a` comes before item `b` in a stable sort of `keys`:
/// by key, and by position where the keys tie.
pub open spec fn item_before<K: SortKey>(keys: Seq<K>, a: int, b: int) -> bool {
    keys[a].before(&keys[b]) || (!keys[b].before(&keys[a]) && a < b)
}

/// True when `order` lists the positions `lo..hi` of `keys`, each once, in
/// stable sorted order.
pub open spec fn is_stable_order_of<K: SortKey>(
    keys: Seq<K>,
    order: Seq<usize>,
    lo: int,
    hi: int,
) -> bool {
    &&& order.len() == hi - lo
    &&& forall|i: int| 0 <= i < order.len() ==> lo <= #[trigger] order[i] < hi
    &&& forall|p: int| lo <= p < hi ==> order.contains(#[trigger] (p as usize))
    &&& forall|i: int, j: int|
        0 <= i < j < order.len() ==> item_before(
            keys,
            #[trigger] order[i] as int,
            #[trigger] order[j] as int,
        )
}

/// True when `order` is the stable sorted order of all of `keys`.
pub open spec fn is_stable_order<K: SortKey>(keys: Seq<K>, order: Seq<usize>) -> bool {
    is_stable_order_of(keys, order, 0, keys.len() as int)
}

pub proof fn lemma_item_before_transitive<K: SortKey>(keys: Seq<K>, a: int, b: int, c: int)
    requires
        item_before(keys, a, b),
        item_before(keys, b, c),
    ensures
        item_before(keys, a, c),
{
    let (x, y, z) = (&keys[a], &keys[b], &keys[c]);
    if x.before(y) {
        K::weak(x, z, y);
        if z.before(y) {
            if y.before(z) {
                K::transitive(y, z, y);
                K::irreflexive(y);
            }
        }
    } else if y.before(z) {
        K::weak(y, x, z);
    } else {
        if z.before(x) {
            K::weak(z, y, x);
        }
    }
}

pub proof fn lemma_item_before_asymmetric<K: SortKey>(keys: Seq<K>, a: int, b: int)
    requires
        item_before(keys, a, b),
    ensures
        !item_before(keys, b, a),
{
    let (x, y) = (&keys[a], &keys[b]);
    if x.before(y) && y.before(x) {
        K::transitive(x, y, x);
        K::irreflexive(x);
    }
}

/// A stable order is unique: two of them list the same positions.
pub proof fn lemma_stable_order_unique<K: SortKey>(keys: Seq<K>, p: Seq<usize>, q: Seq<usize>)
    requires
        is_stable_order(keys, p),
        is_stable_order(keys, q),
    ensures
        p == q,
{
    assert forall|i: int| 0 <= i < p.len() implies p[i] == q[i] by {
        lemma_stable_order_prefix(keys, p, q, i);
    }
    assert(p =~= q);
}

proof fn lemma_stable_order_prefix<K: SortKey>(
    keys: Seq<K>,
    p: Seq<usize>,
    q: Seq<usize>,
    i: int,
)
    requires
        is_stable_order(keys, p),
        is_stable_order(keys, q),
        0 <= i < p.len(),
    ensures
        forall|j: int| 0 <= j <= i ==> p[j] == q[j],
    decreases i,
{
    if i > 0 {
        lemma_stable_order_prefix(keys, p, q, i - 1);
    }
    let x = p[i];
    let y = q[i];
    if x != y {
        assert(q.contains((x as int) as usize));
        assert(p.contains((y as int) as usize));
        let xi = choose|k: int| 0 <= k < q.len() && q[k] == x;
        let yi = choose|k: int| 0 <= k < p.len() && p[k] == y;
        // x is not among the first i of q, nor y among the first i of p
        if xi < i {
            assert(p[xi] == x);
            assert(item_before(keys, p[xi] as int, p[i] as int));
            lemma_item_before_asymmetric(keys, x as int, x as int);
        }
        if yi < i {
            assert(q[yi] == y);
            assert(item_before(keys, q[yi] as int, q[i] as int));
            lemma_item_before_asymmetric(keys, y as int, y as int);
        }
        assert(item_before(keys, q[i] as int, q[xi] as int));
        assert(item_before(keys, p[i] as int, p[yi] as int));
        lemma_item_before_asymmetric(keys, x as int, y as int);
    }
}

/// The stable sorted order of `keys`.
pub open spec fn stable_order_of<K: SortKey>(keys: Seq<K>) -> Seq<usize> {
    choose|order: Seq<usize>| is_stable_order(keys, order)
}

/// Merges two sorted runs of positions.
fn merge_runs<K: SortKey>(
    keys: &[K],
    left: &Vec<usize>,
    right: &Vec<usize>,
    Ghost(lo): Ghost<int>,
    Ghost(mid): Ghost<int>,
    Ghost(hi): Ghost<int>,
) -> (r: Vec<usize>)
    requires
        0 <= lo <= mid <= hi <= keys.len(),
        is_stable_order_of(keys@, left@, lo, mid),
        is_stable_order_of(keys@, right@, mid, hi),
    ensures
        is_stable_order_of(keys@, r@, lo, hi),
{
    let mut out: Vec<usize> = Vec::new();
    let mut i: usize = 0;
    let mut j: usize = 0;
    while i < left.len() || j < right.len()
        invariant
            0 <= lo <= mid <= hi <= keys.len(),
            is_stable_order_of(keys@, left@, lo, mid),
            is_stable_order_of(keys@, right@, mid, hi),
            i <= left.len(),
            j <= right.len(),
            out.len() == i + j,
            forall|k: int| 0 <= k < out.len() ==> lo <= #[trigger] out[k] < hi,
            forall|k: int| 0 <= k < i ==> out@.contains(#[trigger] left[k]),
            forall|k: int| 0 <= k < j ==> out@.contains(#[trigger] right[k]),
            forall|k: int, l: int|
                0 <= k < l < out.len() ==> item_before(
                    keys@,
                    #[trigger] out[k] as int,
                    #[trigger] out[l] as int,
                ),
            forall|k: int, l: int|
                0 <= k < out.len() && i <= l < left.len() ==> item_before(
                    keys@,
                    #[trigger] out[k] as int,
                    #[trigger] left[l] as int,
                ),
            forall|k: int, l: int|
                0 <= k < out.len() && j <= l < right.len() ==> item_before(
                    keys@,
                    #[trigger] out[k] as int,
                    #[trigger] right[l] as int,
                ),
        decreases left.len() - i + right.len() - j,
    {
        let take_left: bool = if i == left.len() {
            false
        } else if j == right.len() {
            true
        } else {
            !keys[right[j]].is_before(&keys[left[i]])
        };
        let ghost old_out = out@;
        if take_left {
            proof {
                assert forall|l: int| j <= l < right.len() implies item_before(
                    keys@,
                    left[i as int] as int,
                    #[trigger] right[l] as int,
                ) by {
                    assert(left[i as int] < mid <= right[j as int]);
                    assert(item_before(keys@, left[i as int] as int, right[j as int] as int));
                    if l > j {
                        assert(item_before(keys@, right[j as int] as int, right[l] as int));
                        lemma_item_before_transitive(
                            keys@,
                            left[i as int] as int,
                            right[j as int] as int,
                            right[l] as int,
                        );
                    }
                }
            }
            out.push(left[i]);
            i += 1;
            proof {
                assert(out[out.len() - 1] == left[i - 1]);
            }
        } else {
            proof {
                assert forall|l: int| i <= l < left.len() implies item_before(
                    keys@,
                    right[j as int] as int,
                    #[trigger] left[l] as int,
                ) by {
                    assert(item_before(keys@, right[j as int] as int, left[i as int] as int));
                    if l > i {
                        assert(item_before(keys@, left[i as int] as int, left[l] as int));
                        lemma_item_before_transitive(
                            keys@,
                            right[j as int] as int,
                            left[i as int] as int,
                            left[l] as int,
                        );
                    }
                }
            }
            out.push(right[j]);
            j += 1;
            proof {
                assert(out[out.len() - 1] == right[j - 1]);
            }
        }
        proof {
            assert forall|k: int| 0 <= k < i implies out@.contains(#[trigger] left[k]) by {
                if old_out.contains(left[k]) {
                    let w = choose|w: int| 0 <= w < old_out.len() && old_out[w] == left[k];
                    assert(out[w] == left[k]);
                }
            }
            assert forall|k: int| 0 <= k < j implies out@.contains(#[trigger] right[k]) by {
                if old_out.contains(right[k]) {
                    let w = choose|w: int| 0 <= w < old_out.len() && old_out[w] == right[k];
                    assert(out[w] == right[k]);
                }
            }
        }
    }
    proof {
        assert forall|p: int| lo <= p < hi implies out@.contains(#[trigger] (p as usize)) by {
            if p < mid {
                assert(left@.contains(p as usize));
                let w = choose|w: int| 0 <= w < left.len() && left[w] == p as usize;
                assert(out@.contains(left[w]));
            } else {
                assert(right@.contains(p as usize));
                let w = choose|w: int| 0 <= w < right.len() && right[w] == p as usize;
                assert(out@.contains(right[w]));
            }
        }
    }
    out
}

/// Sorts the positions `lo..hi`.
fn sort_range<K: SortKey>(keys: &[K], lo: usize, hi: usize) -> (r: Vec<usize>)
    requires
        lo <= hi <= keys.len(),
    ensures
        is_stable_order_of(keys@, r@, lo as int, hi as int),
    decreases hi - lo,
{
    if hi - lo == 0 {
        return Vec::new();
    }
    if hi - lo == 1 {
        let mut one: Vec<usize> = Vec::new();
        one.push(lo);
        assert(one[0] == lo);
        return one;
    }
    let mid: usize = lo + (hi - lo) / 2;
    let left = sort_range(keys, lo, mid);
    let right = sort_range(keys, mid, hi);
    merge_runs(keys, &left, &right, Ghost(lo as int), Ghost(mid as int), Ghost(hi as int))
}

/// The positions of `keys` in stable sorted order.
pub fn stable_order<K: SortKey>(keys: &[K]) -> (r: Vec<usize>)
    ensures
        r@ == stable_order_of(keys@),
        is_stable_order(keys@, r@),
{
    let r = sort_range(keys, 0, keys.len());
    proof {
        assert(is_stable_order(keys@, r@));
        lemma_stable_order_unique(keys@, r@, stable_order_of(keys@));
    }
    r
}

/// Every list of keys has a stable order, and it is `stable_order_of`.
pub proof fn lemma_stable_order_exists<K: SortKey>(keys: Seq<K>)
    requires
        keys.len() <= usize::MAX,
    ensures
        is_stable_order(keys, stable_order_of(keys)),
{
    let order = lemma_insertion_order(keys, keys.len() as int);
    assert(is_stable_order(keys, order));
}

/// Builds the stable order of the first `n` positions by insertion.
proof fn lemma_insertion_order<K: SortKey>(keys: Seq<K>, n: int) -> (order: Seq<usize>)
    requires
        0 <= n <= keys.len() <= usize::MAX,
    ensures
        is_stable_order_of(keys, order, 0, n),
    decreases n,
{
    if n == 0 {
        Seq::empty()
    } else {
        let rest = lemma_insertion_order(keys, n - 1);
        let x = n - 1;
        let at = lemma_insertion_point(keys, rest, x, rest.len() as int);
        let order = rest.insert(at, x as usize);
        assert forall|p: int| 0 <= p < n implies order.contains(#[trigger] (p as usize)) by {
            if p == x {
                assert(order[at] == p as usize);
            } else {
                assert(rest.contains(p as usize));
                let w = choose|w: int| 0 <= w < rest.len() && rest[w] == p as usize;
                if w < at {
                    assert(order[w] == p as usize);
                } else {
                    assert(order[w + 1] == p as usize);
                }
            }
        }
        order
    }
}

/// Where position `x`, above all of `rest`, is inserted: after everything
/// that is not behind it.
proof fn lemma_insertion_point<K: SortKey>(
    keys: Seq<K>,
    rest: Seq<usize>,
    x: int,
    at: int,
) -> (r: int)
    requires
        0 <= x < keys.len(),
        is_stable_order_of(keys, rest, 0, x),
        0 <= at <= rest.len(),
        forall|j: int| at <= j < rest.len() ==> item_before(keys, x, #[trigger] rest[j] as int),
    ensures
        0 <= r <= rest.len(),
        forall|j: int| 0 <= j < r ==> item_before(keys, #[trigger] rest[j] as int, x),
        forall|j: int| r <= j < rest.len() ==> item_before(keys, x, #[trigger] rest[j] as int),
    decreases at,
{
    if at == 0 {
        0
    } else if item_before(keys, x, rest[at - 1] as int) {
        lemma_insertion_point(keys, rest, x, at - 1)
    } else {
        assert forall|j: int| 0 <= j < at implies item_before(
            keys,
            #[trigger] rest[j] as int,
            x,
        ) by {
            assert(item_before(keys, rest[at - 1] as int, x));
            if j < at - 1 {
                assert(item_before(keys, rest[j] as int, rest[at - 1] as int));
                lemma_item_before_transitive(keys, rest[j] as int, rest[at - 1] as int, x);
            }
        }
        at
    }
}

/// The values of `s` from least to greatest.
pub open spec fn sorted_values(s: Seq<u64>) -> Seq<u64> {
    stable_order_of(s).map_values(|i: usize| s[i as int])
}

/// `s` without those items that repeat the one before them.
pub open spec fn without_repeats(s: Seq<u64>) -> Seq<u64>
    decreases s.len(),
{
    if s.len() <= 1 {
        s
    } else {
        let head = without_repeats(s.drop_last());
        if s[s.len() - 2] == s.last() {
            head
        } else {
            head.push(s.last())
        }
    }
}

/// Sorting keeps the values and puts them in order.
pub proof fn lemma_sorted_values(s: Seq<u64>)
    requires
        s.len() <= usize::MAX,
    ensures
        sorted_values(s).len() == s.len(),
        forall|i: int, j: int|
            0 <= i <= j < s.len() ==> sorted_values(s)[i] <= sorted_values(s)[j],
        forall|x: u64| #[trigger] sorted_values(s).contains(x) <==> s.contains(x),
{
    lemma_stable_order_exists(s);
    let order = stable_order_of(s);
    let r = sorted_values(s);
    assert forall|i: int, j: int| 0 <= i <= j < s.len() implies r[i] <= r[j] by {
        if i < j {
            assert(item_before(s, order[i] as int, order[j] as int));
        }
    }
    assert forall|x: u64| #[trigger] r.contains(x) <==> s.contains(x) by {
        if r.contains(x) {
            let k = choose|k: int| 0 <= k < r.len() && r[k] == x;
            assert(s[order[k] as int] == x);
        }
        if s.contains(x) {
            let k = choose|k: int| 0 <= k < s.len() && s[k] == x;
            assert(order.contains(k as usize));
            let w = choose|w: int| 0 <= w < order.len() && order[w] == k as usize;
            assert(r[w] == x);
        }
    }
}

/// Dropping repeats of an ordered list leaves its distinct values in
/// order.
pub proof fn lemma_without_repeats(s: Seq<u64>)
    requires
        forall|i: int, j: int| 0 <= i <= j < s.len() ==> s[i] <= s[j],
    ensures
        without_repeats(s).len() <= s.len(),
        s.len() > 0 ==> without_repeats(s).len() > 0 && without_repeats(s).last() == s.last()
            && without_repeats(s)[0] == s[0],
        forall|i: int, j: int|
            0 <= i < j < without_repeats(s).len() ==> without_repeats(s)[i]
                < without_repeats(s)[j],
        forall|x: u64| #[trigger] without_repeats(s).contains(x) <==> s.contains(x),
    decreases s.len(),
{
    let r = without_repeats(s);
    if s.len() > 1 {
        let head = s.drop_last();
        let h = without_repeats(head);
        lemma_without_repeats(head);
        assert forall|i: int| 0 <= i < h.len() implies h[i] <= s[s.len() - 2] by {
            if i < h.len() - 1 {
                assert(h[i] < h[h.len() - 1]);
            }
        }
        assert forall|x: u64| #[trigger] r.contains(x) <==> s.contains(x) by {
            assert(s =~= head.push(s.last()));
            if head.contains(x) {
                let k = choose|k: int| 0 <= k < head.len() && head[k] == x;
                assert(s[k] == x);
            }
            if s.contains(x) && !head.contains(x) {
                assert(x == s.last());
                assert(head[head.len() - 1] == s[s.len() - 2]);
                assert(r[r.len() - 1] == x);
            }
            if h.contains(x) {
                let k = choose|k: int| 0 <= k < h.len() && h[k] == x;
                assert(r[k] == x);
            }
            if r.contains(x) && !h.contains(x) {
                assert(x == s.last());
                assert(s[s.len() - 1] == x);
            }
        }
    }
}

/// The distinct values of `s` from least to greatest.
pub open spec fn distinct_sorted(s: Seq<u64>) -> Seq<u64> {
    without_repeats(sorted_values(s))
}

/// The distinct values are in strict order, and are those of `s`.
pub proof fn lemma_distinct_sorted(s: Seq<u64>)
    requires
        s.len() <= usize::MAX,
    ensures
        forall|i: int, j: int|
            0 <= i < j < distinct_sorted(s).len() ==> distinct_sorted(s)[i] < distinct_sorted(
                s,
            )[j],
        forall|x: u64| #[trigger] distinct_sorted(s).contains(x) <==> s.contains(x),
        forall|k: int|
            0 <= k < distinct_sorted(s).len() ==> s.contains(#[trigger] distinct_sorted(s)[k]),
{
    lemma_sorted_values(s);
    lemma_without_repeats(sorted_values(s));
    assert forall|k: int| 0 <= k < distinct_sorted(s).len() implies s.contains(
        #[trigger] distinct_sorted(s)[k],
    ) by {
        assert(distinct_sorted(s).contains(distinct_sorted(s)[k]));
    }
}

/// Sorts `s` and drops repeats.
pub fn sort_distinct(s: &[u64]) -> (r: Vec<u64>)
    ensures
        r@ == distinct_sorted(s@),
{
    let sorted: Vec<u64> = sort_values(s);
    let mut out: Vec<u64> = Vec::new();
    let mut i: usize = 0;
    while i < sorted.len()
        invariant
            i <= sorted.len(),
            out@ == without_repeats(sorted@.take(i as int)),
        decreases sorted.len() - i,
    {
        proof {
            assert(sorted@.take(i + 1).drop_last() =~= sorted@.take(i as int));
        }
        if i == 0 || sorted[i - 1] != sorted[i] {
            out.push(sorted[i]);
        }
        i += 1;
        proof {
            if i == 1 {
                assert(out@ =~= sorted@.take(1));
            }
        }
    }
    assert(sorted@.take(sorted.len() as int) =~= sorted@);
    out
}

/// Sorts `s`.
pub fn sort_values(s: &[u64]) -> (r: Vec<u64>)
    ensures
        r@ == sorted_values(s@),
        r.len() == s.len(),
{
    let order: Vec<usize> = stable_order(s);
    let mut out: Vec<u64> = Vec::new();
    let mut i: usize = 0;
    while i < order.len()
        invariant
            i <= order.len(),
            order.len() == s.len(),
            order@ == stable_order_of(s@),
            forall|k: int| 0 <= k < order.len() ==> (#[trigger] order[k]) < s.len(),
            out@ == sorted_values(s@).take(i as int),
        decreases order.len() - i,
    {
        out.push(s[order[i]]);
        i += 1;
        assert(out@ =~= sorted_values(s@).take(i as int));
    }
    assert(sorted_values(s@).take(order.len() as int) =~= sorted_values(s@));
    out
}

/// Listing the elements of a sequence by positions that name each of them
/// once gives each element as often as the sequence has it.
pub proof fn lemma_rearranged<T>(s: Seq<T>, at: Seq<usize>)
    requires
        at.len() == s.len(),
        s.len() <= usize::MAX,
        forall|i: int| 0 <= i < at.len() ==> (#[trigger] at[i]) < s.len(),
        forall|p: int| 0 <= p < s.len() ==> at.contains(#[trigger] (p as usize)),
        forall|i: int, j: int| 0 <= i < j < at.len() ==> #[trigger] at[i] != #[trigger] at[j],
    ensures
        at.map_values(|i: usize| s[i as int]).to_multiset() == s.to_multiset(),
    decreases s.len(),
{
    broadcast use vstd::seq_lib::group_to_multiset_ensures;

    let listed = at.map_values(|i: usize| s[i as int]);
    if s.len() == 0 {
        assert(listed =~= s);
    } else {
        let last = s.len() - 1;
        assert(at.contains(last as usize));
        let w = choose|w: int| 0 <= w < at.len() && at[w] == last as usize;
        let less = at.remove(w);
        let t = s.drop_last();
        assert forall|p: int| 0 <= p < t.len() implies less.contains(#[trigger] (p as usize)) by {
            assert(at.contains(p as usize));
            let k = choose|k: int| 0 <= k < at.len() && at[k] == p as usize;
            if k < w {
                assert(less[k] == p as usize);
            } else {
                assert(less[k - 1] == p as usize);
            }
        }
        lemma_rearranged(t, less);
        assert(listed.remove(w) =~= less.map_values(|i: usize| t[i as int]));
        assert(listed[w] == s[last]);
        assert(t.push(s[last]) =~= s);
        let m = listed.to_multiset();
        assert(listed.remove(w).to_multiset() == m.remove(listed[w]));
        assert(listed.contains(listed[w]));
        assert(m =~= m.remove(listed[w]).insert(listed[w]));
    }
}

/// Every position is in a stable order once.
pub proof fn lemma_stable_order_distinct<K: SortKey>(keys: Seq<K>, order: Seq<usize>)
    requires
        is_stable_order(keys, order),
    ensures
        forall|i: int, j: int|
            0 <= i < j < order.len() ==> #[trigger] order[i] != #[trigger] order[j],
{
    assert forall|i: int, j: int| 0 <= i < j < order.len() implies #[trigger] order[i]
        != #[trigger] order[j] by {
        assert(item_before(keys, order[i] as int, order[j] as int));
        if order[i] == order[j] {
            lemma_item_before_asymmetric(keys, order[i] as int, order[j] as int);
        }
    }
}

} // verus!
