//! Patterns that name symbols. The lists of the command line take `*`, `?` and
//! `[...]`; a glob takes `*` alone.
use crate::util::bytes;
use vstd::prelude::*;

verus! {

/// The wildcard byte that stands for any run of bytes.
pub const STAR: u8 = 0x2a;

/// The wildcard byte that stands for one byte.
pub const QUESTION: u8 = 0x3f;

/// The byte that opens a set of bytes.
pub const OPEN: u8 = 0x5b;

/// The byte that closes a set of bytes.
pub const CLOSE: u8 = 0x5d;

/// The byte between the ends of a range in a set.
pub const DASH: u8 = 0x2d;

/// True when `name` matches `pat`: a `*` stands for any run of bytes, and
/// every other byte for itself.
pub open spec fn glob_matches(pat: Seq<u8>, name: Seq<u8>) -> bool
    decreases pat.len(),
{
    if pat.len() == 0 {
        name.len() == 0
    } else if pat[0] == STAR {
        exists|k: int|
            0 <= k <= name.len() && glob_matches(pat.drop_first(), #[trigger] name.skip(k))
    } else {
        name.len() > 0 && name[0] == pat[0] && glob_matches(pat.drop_first(), name.drop_first())
    }
}

/// True when some tail of `name` matches `pat`.
pub open spec fn tail_matches(pat: Seq<u8>, name: Seq<u8>) -> bool {
    exists|k: int| 0 <= k <= name.len() && glob_matches(pat, #[trigger] name.skip(k))
}

/// True of a byte string without wildcards.
pub open spec fn is_literal(lit: Seq<u8>) -> bool {
    forall|i: int| 0 <= i < lit.len() ==> lit[i] != STAR
}

/// A literal part has to begin the name, and the rest of the pattern
/// applies to the rest of the name.
proof fn lemma_literal_then(lit: Seq<u8>, pat: Seq<u8>, name: Seq<u8>)
    requires
        is_literal(lit),
    ensures
        glob_matches(lit + pat, name) <==> bytes::has_prefix(name, lit) && glob_matches(
            pat,
            name.skip(lit.len() as int),
        ),
    decreases lit.len(),
{
    if lit.len() == 0 {
        assert(lit + pat =~= pat);
        assert(name.skip(0) =~= name);
        assert(name.take(0) =~= lit);
    } else {
        assert((lit + pat).drop_first() =~= lit.drop_first() + pat);
        if name.len() > 0 && name[0] == lit[0] {
            lemma_literal_then(lit.drop_first(), pat, name.drop_first());
            let rest = lit.drop_first();
            if rest.len() <= name.drop_first().len() {
                assert(name.drop_first().skip(rest.len() as int) =~= name.skip(lit.len() as int));
                assert(name.take(lit.len() as int) =~= seq![name[0]] + name.drop_first().take(
                    rest.len() as int,
                ));
                assert(lit =~= seq![lit[0]] + rest);
                if name.take(lit.len() as int) == lit {
                    assert(name.drop_first().take(rest.len() as int) =~= rest) by {
                        assert forall|i: int| 0 <= i < rest.len() implies name.drop_first()[i]
                            == rest[i] by {
                            assert(name.take(lit.len() as int)[i + 1] == lit[i + 1]);
                        }
                    }
                }
            }
        } else if bytes::has_prefix(name, lit) {
            assert(name.take(lit.len() as int)[0] == lit[0]);
        }
    }
}

/// A match of a tail of a tail is a match of a tail.
proof fn lemma_tail_grows(pat: Seq<u8>, name: Seq<u8>, lo: int, hi: int)
    requires
        0 <= lo <= hi <= name.len(),
        tail_matches(pat, name.skip(hi)),
    ensures
        tail_matches(pat, name.skip(lo)),
{
    let k = choose|k: int|
        0 <= k <= name.skip(hi).len() && glob_matches(pat, #[trigger] name.skip(hi).skip(k));
    assert(name.skip(lo).skip(hi - lo + k) =~= name.skip(hi).skip(k));
}

/// Between two wildcards the leftmost occurrence of a literal part is as
/// good as any.
proof fn lemma_leftmost(lit: Seq<u8>, rest: Seq<u8>, name: Seq<u8>, pos: int, at: int)
    requires
        is_literal(lit),
        0 <= pos <= at,
        bytes::occurs_at(name, lit, at),
        forall|j: int| pos <= j < at ==> !bytes::occurs_at(name, lit, j),
    ensures
        tail_matches(lit + (seq![STAR] + rest), name.skip(pos)) <==> tail_matches(
            rest,
            name.skip(at + lit.len()),
        ),
{
    let after = seq![STAR] + rest;
    assert(after.drop_first() =~= rest);
    if tail_matches(lit + after, name.skip(pos)) {
        let k = choose|k: int|
            0 <= k <= name.skip(pos).len() && glob_matches(
                lit + after,
                #[trigger] name.skip(pos).skip(k),
            );
        let s = name.skip(pos).skip(k);
        lemma_literal_then(lit, after, s);
        assert(s =~= name.skip(pos + k));
        assert(name.subrange(pos + k, pos + k + lit.len()) =~= s.take(lit.len() as int));
        assert(bytes::occurs_at(name, lit, pos + k));
        assert(s.skip(lit.len() as int) =~= name.skip(pos + k + lit.len()));
        lemma_tail_grows(rest, name, at + lit.len(), pos + k + lit.len());
    }
    if tail_matches(rest, name.skip(at + lit.len())) {
        let s = name.skip(at);
        assert(s.skip(lit.len() as int) =~= name.skip(at + lit.len()));
        assert(s.take(lit.len() as int) =~= name.subrange(at, at + lit.len()));
        lemma_literal_then(lit, after, s);
        assert(name.skip(pos).skip(at - pos) =~= s);
    }
}

/// Without an occurrence of the literal part there is no match.
proof fn lemma_no_occurrence(lit: Seq<u8>, rest: Seq<u8>, name: Seq<u8>, pos: int)
    requires
        is_literal(lit),
        0 <= pos <= name.len(),
        forall|j: int| pos <= j ==> !bytes::occurs_at(name, lit, j),
    ensures
        !tail_matches(lit + rest, name.skip(pos)),
{
    if tail_matches(lit + rest, name.skip(pos)) {
        let k = choose|k: int|
            0 <= k <= name.skip(pos).len() && glob_matches(
                lit + rest,
                #[trigger] name.skip(pos).skip(k),
            );
        let s = name.skip(pos).skip(k);
        lemma_literal_then(lit, rest, s);
        assert(s =~= name.skip(pos + k));
        assert(name.subrange(pos + k, pos + k + lit.len()) =~= s.take(lit.len() as int));
        assert(bytes::occurs_at(name, lit, pos + k));
    }
}

/// The part after the last wildcard has to end the name.
proof fn lemma_last_part(lit: Seq<u8>, name: Seq<u8>)
    requires
        is_literal(lit),
    ensures
        tail_matches(lit, name) <==> bytes::has_suffix(name, lit),
{
    let none = Seq::<u8>::empty();
    assert(lit + none =~= lit);
    if tail_matches(lit, name) {
        let k = choose|k: int| 0 <= k <= name.len() && glob_matches(lit, #[trigger] name.skip(k));
        let s = name.skip(k);
        lemma_literal_then(lit, none, s);
        assert(s.skip(lit.len() as int).len() == 0);
        assert(s.take(lit.len() as int) =~= s);
        assert(name.skip(name.len() - lit.len()) =~= s);
    }
    if bytes::has_suffix(name, lit) {
        let s = name.skip(name.len() - lit.len());
        lemma_literal_then(lit, none, s);
        assert(s.take(lit.len() as int) =~= s);
        assert(s.skip(lit.len() as int) =~= none);
    }
}

/// Matches a symbol-list pattern: literal text with `*` wildcards.
pub fn glob_match(pat: &[u8], name: &[u8]) -> (r: bool)
    ensures
        r == glob_matches(pat@, name@),
{
    let star: usize = bytes::find_byte(pat, STAR, 0);
    let first: Vec<u8> = bytes::copy_range(pat, 0, star);
    proof {
        assert(pat@ =~= first@ + pat@.skip(star as int));
        lemma_literal_then(first@, pat@.skip(star as int), name@);
    }
    if !bytes::starts_with(name, first.as_slice()) {
        return false;
    }
    let mut pos: usize = star;
    if star == pat.len() {
        return pos == name.len();
    }
    let mut cur: usize = star + 1;
    proof {
        assert(pat@.skip(star as int).drop_first() =~= pat@.skip(cur as int));
    }
    loop
        invariant
            cur <= pat.len(),
            pos <= name.len(),
            glob_matches(pat@, name@) == tail_matches(pat@.skip(cur as int), name@.skip(pos as int)),
        decreases pat.len() - cur,
    {
        let next: usize = bytes::find_byte(pat, STAR, cur);
        let part: Vec<u8> = bytes::copy_range(pat, cur, next);
        if next == pat.len() {
            proof {
                assert(pat@.skip(cur as int) =~= part@);
                lemma_last_part(part@, name@.skip(pos as int));
                if part.len() <= name.len() - pos {
                    assert(name@.skip(pos as int).skip(name.len() - pos - part.len())
                        =~= name@.skip(name.len() - part.len()));
                }
            }
            return part.len() <= name.len() - pos && bytes::ends_with(name, part.as_slice());
        }
        let ghost rest = pat@.skip(next + 1);
        proof {
            assert(pat@.skip(cur as int) =~= part@ + (seq![STAR] + rest));
        }
        match bytes::find_from(name, part.as_slice(), pos) {
            Some(at) => {
                proof {
                    lemma_leftmost(part@, rest, name@, pos as int, at as int);
                }
                pos = at + part.len();
                cur = next + 1;
            },
            None => {
                proof {
                    lemma_no_occurrence(part@, seq![STAR] + rest, name@, pos as int);
                }
                return false;
            },
        }
    }
}

/// Where a set ends whose contents start at `i`: at the first closing
/// bracket. `None` if nothing closes it.
pub open spec fn set_end(pat: Seq<u8>, i: int) -> Option<int>
    decreases pat.len() - i,
{
    if i < 0 || i >= pat.len() {
        None
    } else if pat[i] == CLOSE {
        Some(i)
    } else {
        set_end(pat, i + 1)
    }
}

/// True when a byte is in the set that `pat` lists from `i` to `end`: it is
/// listed, or lies in a listed range such as `a-z`.
pub open spec fn in_set(pat: Seq<u8>, i: int, end: int, c: u8) -> bool
    decreases end - i,
{
    if i >= end {
        false
    } else if i + 2 < end && pat[i + 1] == DASH {
        pat[i] <= c <= pat[i + 2] || in_set(pat, i + 3, end, c)
    } else {
        pat[i] == c || in_set(pat, i + 1, end, c)
    }
}

/// The position behind the element at `i` of a pattern, if that element
/// stands for the byte `c`: a `?` does, a set does if it holds `c`, and any
/// other byte does if it is `c`.
pub open spec fn behind(pat: Seq<u8>, i: int, c: u8) -> Option<int> {
    if pat[i] == OPEN {
        match set_end(pat, i + 1) {
            Some(e) => if in_set(pat, i + 1, e, c) {
                Some(e + 1)
            } else {
                None
            },
            None => None,
        }
    } else if pat[i] == QUESTION || pat[i] == c {
        Some(i + 1)
    } else {
        None
    }
}

/// True when the pattern from `i` on matches the name from `j` on. A `*`
/// stands for any run of bytes.
pub open spec fn matches_from(pat: Seq<u8>, i: int, name: Seq<u8>, j: int) -> bool
    decreases pat.len() - i, name.len() - j,
{
    if i < 0 || i >= pat.len() {
        j == name.len()
    } else if pat[i] == STAR {
        matches_from(pat, i + 1, name, j) || (j < name.len() && matches_from(pat, i, name, j + 1))
    } else if j < name.len() {
        match behind(pat, i, name[j]) {
            Some(next) => i < next <= pat.len() && matches_from(pat, next, name, j + 1),
            None => false,
        }
    } else {
        false
    }
}

/// True when a name matches a pattern of an export list or another list of
/// symbols: `*` stands for any run of bytes, `?` for one byte, and `[...]`
/// for one byte of a set.
pub open spec fn pattern_matches(pat: Seq<u8>, name: Seq<u8>) -> bool {
    matches_from(pat, 0, name, 0)
}

/// True when every set that a pattern opens from `i` on is closed.
pub open spec fn closed_from(pat: Seq<u8>, i: int) -> bool
    decreases pat.len() - i,
{
    if i < 0 || i >= pat.len() {
        true
    } else if pat[i] == OPEN {
        match set_end(pat, i + 1) {
            Some(e) => i < e < pat.len() && closed_from(pat, e + 1),
            None => false,
        }
    } else {
        closed_from(pat, i + 1)
    }
}

/// True for a pattern that can be used.
pub open spec fn is_valid(pat: Seq<u8>) -> bool {
    closed_from(pat, 0)
}

/// True when all patterns of a list can be used.
pub open spec fn all_valid(pats: Seq<Seq<u8>>) -> bool {
    forall|i: int| 0 <= i < pats.len() ==> is_valid(#[trigger] pats[i])
}

/// True when a name matches some pattern of a list.
pub open spec fn any_matches(pats: Seq<Seq<u8>>, name: Seq<u8>) -> bool {
    exists|i: int| 0 <= i < pats.len() && pattern_matches(#[trigger] pats[i], name)
}

/// Finds where a set ends whose contents start at `i`.
fn find_set_end(pat: &[u8], i: usize) -> (r: Option<usize>)
    requires
        i <= pat.len(),
    ensures
        match r {
            Some(e) => set_end(pat@, i as int) == Some(e as int) && i <= e < pat.len(),
            None => set_end(pat@, i as int) is None,
        },
{
    let mut k: usize = i;
    while k < pat.len()
        invariant
            i <= k <= pat.len(),
            set_end(pat@, k as int) == set_end(pat@, i as int),
        decreases pat.len() - k,
    {
        if pat[k] == CLOSE {
            return Some(k);
        }
        k += 1;
    }
    None
}

fn is_in_set(pat: &[u8], i: usize, end: usize, c: u8) -> (r: bool)
    requires
        i <= end <= pat.len(),
    ensures
        r == in_set(pat@, i as int, end as int, c),
{
    let mut k: usize = i;
    while k < end
        invariant
            i <= k <= end <= pat.len(),
            in_set(pat@, k as int, end as int, c) == in_set(pat@, i as int, end as int, c),
        decreases end - k,
    {
        if end - k > 2 && pat[k + 1] == DASH {
            if pat[k] <= c && c <= pat[k + 2] {
                return true;
            }
            k += 3;
        } else {
            if pat[k] == c {
                return true;
            }
            k += 1;
        }
    }
    false
}

fn find_behind(pat: &[u8], i: usize, c: u8) -> (r: Option<usize>)
    requires
        i < pat.len(),
    ensures
        match r {
            Some(next) => behind(pat@, i as int, c) == Some(next as int) && i < next <= pat.len(),
            None => behind(pat@, i as int, c) is None,
        },
{
    if pat[i] == OPEN {
        match find_set_end(pat, i + 1) {
            Some(e) => if is_in_set(pat, i + 1, e, c) {
                Some(e + 1)
            } else {
                None
            },
            None => None,
        }
    } else if pat[i] == QUESTION || pat[i] == c {
        Some(i + 1)
    } else {
        None
    }
}

/// Tells whether a pattern can be used.
pub fn check_pattern(pat: &[u8]) -> (r: bool)
    ensures
        r == is_valid(pat@),
{
    let mut i: usize = 0;
    while i < pat.len()
        invariant
            i <= pat.len(),
            closed_from(pat@, i as int) == is_valid(pat@),
        decreases pat.len() - i,
    {
        if pat[i] == OPEN {
            match find_set_end(pat, i + 1) {
                Some(e) => {
                    i = e + 1;
                },
                None => {
                    return false;
                },
            }
        } else {
            i += 1;
        }
    }
    true
}

/// Tells whether all patterns of a list can be used.
pub fn check_patterns(pats: &Vec<Vec<u8>>) -> (r: bool)
    ensures
        r == all_valid(bytes::views(pats@)),
{
    let ghost v = bytes::views(pats@);
    let mut i: usize = 0;
    while i < pats.len()
        invariant
            i <= pats.len(),
            v == bytes::views(pats@),
            forall|k: int| 0 <= k < i ==> is_valid(#[trigger] v[k]),
        decreases pats.len() - i,
    {
        assert(v[i as int] == pats[i as int]@);
        if !check_pattern(pats[i].as_slice()) {
            return false;
        }
        i += 1;
    }
    true
}

/// A `*` that matches from some place on matches from any earlier one.
proof fn lemma_star_earlier(pat: Seq<u8>, i: int, name: Seq<u8>, j: int, k: int)
    requires
        0 <= i < pat.len(),
        pat[i] == STAR,
        0 <= j <= k <= name.len(),
        matches_from(pat, i, name, k),
    ensures
        matches_from(pat, i, name, j),
    decreases k - j,
{
    if j < k {
        lemma_star_earlier(pat, i, name, j + 1, k);
    }
}

/// An earlier `*` need not take more once a later one is reached: whatever it
/// could still take, the later one can take.
proof fn lemma_later_star(
    pat: Seq<u8>,
    star: int,
    i: int,
    name: Seq<u8>,
    from: int,
    j: int,
    k: int,
)
    requires
        0 <= star < i < pat.len(),
        pat[star] == STAR,
        pat[i] == STAR,
        0 <= from <= k <= name.len(),
        from <= j <= name.len(),
        forall|m: int|
            from <= m <= name.len() && #[trigger] matches_from(pat, star + 1, name, m) ==> m + (j
                - from) <= name.len() && matches_from(pat, i, name, m + (j - from)),
        matches_from(pat, star, name, k),
    ensures
        matches_from(pat, i, name, j),
    decreases name.len() - k,
{
    if matches_from(pat, star + 1, name, k) {
        lemma_star_earlier(pat, i, name, j, k + (j - from));
    } else {
        lemma_later_star(pat, star, i, name, from, j, k + 1);
    }
}

/// One element of a pattern matched: what the elements behind the last `*`
/// still have to match moves along.
proof fn lemma_one_more(
    pat: Seq<u8>,
    first: int,
    i: int,
    next: int,
    name: Seq<u8>,
    from: int,
    j: int,
)
    requires
        0 <= i < pat.len(),
        pat[i] != STAR,
        0 <= from <= j < name.len(),
        behind(pat, i, name[j]) == Some(next),
        forall|m: int|
            from <= m <= name.len() && #[trigger] matches_from(pat, first, name, m) ==> m + (j
                - from) <= name.len() && matches_from(pat, i, name, m + (j - from)),
    ensures
        forall|m: int|
            from <= m <= name.len() && #[trigger] matches_from(pat, first, name, m) ==> m + (j + 1
                - from) <= name.len() && matches_from(pat, next, name, m + (j + 1 - from)),
{
    assert forall|m: int|
        from <= m <= name.len() && #[trigger] matches_from(pat, first, name, m) implies m + (j + 1
        - from) <= name.len() && matches_from(pat, next, name, m + (j + 1 - from)) by {
        let at = m + (j - from);
        assert(matches_from(pat, i, name, at));
        assert(at < name.len());
    }
}

/// Matches a name against a pattern. Where an element does not match, the
/// last `*` takes one byte more.
pub fn pattern_match(pat: &[u8], name: &[u8]) -> (r: bool)
    ensures
        r == pattern_matches(pat@, name@),
{
    let mut i: usize = 0;
    let mut j: usize = 0;
    // The last `*`, and how far it reaches.
    let mut star: Option<usize> = None;
    let mut from: usize = 0;
    let ghost goal = pattern_matches(pat@, name@);
    loop
        invariant
            goal == pattern_matches(pat@, name@),
            i <= pat.len(),
            from <= j <= name.len(),
            match star {
                Some(s) => {
                    &&& s < i
                    &&& pat@[s as int] == STAR
                    &&& goal == (matches_from(pat@, i as int, name@, j as int) || (from
                        < name.len() && matches_from(pat@, s as int, name@, from + 1)))
                    &&& forall|m: int|
                        from <= m <= name.len() && #[trigger] matches_from(
                            pat@,
                            s + 1,
                            name@,
                            m,
                        ) ==> m + (j - from) <= name.len() && matches_from(
                            pat@,
                            i as int,
                            name@,
                            m + (j - from),
                        )
                },
                None => goal == matches_from(pat@, i as int, name@, j as int),
            },
        decreases
                pat.len() - match star {
                    Some(s) => s + 1,
                    None => 0,
                },
                name.len() - from,
                pat.len() - i,
    {
        if i < pat.len() && pat[i] == STAR {
            proof {
                if let Some(s) = star {
                    if from < name.len() && matches_from(pat@, s as int, name@, from + 1) {
                        lemma_later_star(
                            pat@,
                            s as int,
                            i as int,
                            name@,
                            from as int,
                            j as int,
                            from + 1,
                        );
                    }
                }
            }
            star = Some(i);
            from = j;
            i += 1;
            continue;
        }
        if i < pat.len() && j < name.len() {
            if let Some(next) = find_behind(pat, i, name[j]) {
                proof {
                    if let Some(s) = star {
                        lemma_one_more(
                            pat@,
                            s + 1,
                            i as int,
                            next as int,
                            name@,
                            from as int,
                            j as int,
                        );
                    }
                }
                i = next;
                j += 1;
                continue;
            }
        }
        if i == pat.len() && j == name.len() {
            return true;
        }
        match star {
            None => {
                return false;
            },
            Some(s) => {
                if from == name.len() {
                    return false;
                }
                from += 1;
                j = from;
                i = s + 1;
            },
        }
    }
}

/// Tells whether a name matches some pattern of a list.
pub fn match_any(pats: &Vec<Vec<u8>>, name: &[u8]) -> (r: bool)
    ensures
        r == any_matches(bytes::views(pats@), name@),
{
    let ghost v = bytes::views(pats@);
    let mut i: usize = 0;
    while i < pats.len()
        invariant
            i <= pats.len(),
            v == bytes::views(pats@),
            forall|k: int| 0 <= k < i ==> !pattern_matches(#[trigger] v[k], name@),
        decreases pats.len() - i,
    {
        assert(v[i as int] == pats[i as int]@);
        if pattern_match(pats[i].as_slice(), name) {
            return true;
        }
        i += 1;
    }
    false
}

proof fn lemma_stars_alone_from(pat: Seq<u8>, i: int, name: Seq<u8>, j: int)
    requires
        0 <= i <= pat.len(),
        0 <= j <= name.len(),
        forall|k: int|
            0 <= k < pat.len() ==> #[trigger] pat[k] != QUESTION && pat[k] != OPEN,
    ensures
        matches_from(pat, i, name, j) == glob_matches(pat.skip(i), name.skip(j)),
    decreases pat.len() - i, name.len() - j,
{
    let p = pat.skip(i);
    let s = name.skip(j);
    if i < pat.len() {
        assert(p.drop_first() =~= pat.skip(i + 1));
        assert(p[0] == pat[i]);
        if pat[i] == STAR {
            lemma_stars_alone_from(pat, i + 1, name, j);
            assert(s.skip(0) =~= s);
            if j < name.len() {
                lemma_stars_alone_from(pat, i, name, j + 1);
                let t = name.skip(j + 1);
                if glob_matches(p, t) {
                    let k = choose|k: int|
                        0 <= k <= t.len() && glob_matches(p.drop_first(), #[trigger] t.skip(k));
                    assert(s.skip(k + 1) =~= t.skip(k));
                }
                if glob_matches(p, s) {
                    let k = choose|k: int|
                        0 <= k <= s.len() && glob_matches(p.drop_first(), #[trigger] s.skip(k));
                    if k > 0 {
                        assert(t.skip(k - 1) =~= s.skip(k));
                    }
                }
            } else if glob_matches(p, s) {
                let k = choose|k: int|
                    0 <= k <= s.len() && glob_matches(p.drop_first(), #[trigger] s.skip(k));
                assert(k == 0);
            }
        } else if j < name.len() {
            lemma_stars_alone_from(pat, i + 1, name, j + 1);
            assert(s.drop_first() =~= name.skip(j + 1));
            assert(s[0] == name[j]);
        }
    }
}

/// A pattern without `?` and `[` is literal text with `*` wildcards.
pub proof fn lemma_stars_alone(pat: Seq<u8>, name: Seq<u8>)
    requires
        forall|k: int|
            0 <= k < pat.len() ==> #[trigger] pat[k] != QUESTION && pat[k] != OPEN,
    ensures
        pattern_matches(pat, name) == glob_matches(pat, name),
        is_valid(pat),
{
    lemma_stars_alone_from(pat, 0, name, 0);
    assert(pat.skip(0) =~= pat);
    assert(name.skip(0) =~= name);
    lemma_no_sets(pat, 0);
}

proof fn lemma_no_sets(pat: Seq<u8>, i: int)
    requires
        forall|k: int| 0 <= k < pat.len() ==> #[trigger] pat[k] != OPEN,
    ensures
        closed_from(pat, i),
    decreases pat.len() - i,
{
    if 0 <= i < pat.len() {
        lemma_no_sets(pat, i + 1);
    }
}

/// A name without wildcards matches itself and nothing else.
pub proof fn lemma_plain_name(pat: Seq<u8>, name: Seq<u8>)
    requires
        forall|k: int|
            0 <= k < pat.len() ==> #[trigger] pat[k] != QUESTION && pat[k] != OPEN && pat[k]
                != STAR,
    ensures
        pattern_matches(pat, name) <==> pat == name,
{
    let none = Seq::<u8>::empty();
    lemma_stars_alone(pat, name);
    lemma_literal_then(pat, none, name);
    assert(pat + none =~= pat);
    if glob_matches(pat, name) {
        assert(name.take(pat.len() as int) =~= name);
    }
    if pat == name {
        assert(name.take(pat.len() as int) =~= pat);
        assert(name.skip(pat.len() as int) =~= none);
    }
}

} // verus!
