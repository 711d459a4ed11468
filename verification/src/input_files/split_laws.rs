//! Where a section is cut: the pieces cover it from end to end, symbols
//! start pieces, and a section of literals is cut between its literals.
use super::split::{
    piece_at, piece_end, piece_starts, pieces_from, points_within, section_pieces, split_points,
    stepped, string_starts,
};
use crate::input_sections::IsecView;
use crate::macho::{NList, SectionView};
use crate::util::{bytes, order};
use vstd::prelude::*;

verus! {

/// True for a symbol that starts a piece of section `i`: one that is defined
/// there and is no alternate entry point (bit 9 of its description).
pub open spec fn starts_piece(n: NList, i: int) -> bool {
    &&& n.n_type & 0xe0 == 0
    &&& n.n_type & 0x0e == 0x0e
    &&& n.n_desc & 0x200 == 0
    &&& n.n_sect == i + 1
}

proof fn lemma_points(nlists: Seq<NList>, i: int, v: u64)
    ensures
        split_points(nlists, i).contains(v) <==> exists|k: int|
            0 <= k < nlists.len() && starts_piece(#[trigger] nlists[k], i) && nlists[k].n_value
                == v,
        split_points(nlists, i).len() <= nlists.len(),
    decreases nlists.len(),
{
    if nlists.len() > 0 {
        let front = nlists.drop_last();
        lemma_points(front, i, v);
        let before = split_points(front, i);
        let all = split_points(nlists, i);
        if before.contains(v) {
            let j = before.index_of(v);
            assert(all[j] == v);
            let k = choose|k: int|
                0 <= k < front.len() && starts_piece(#[trigger] front[k], i) && front[k].n_value
                    == v;
            assert(nlists[k] == front[k]);
        }
        if starts_piece(nlists.last(), i) && nlists.last().n_value == v {
            assert(all[before.len() as int] == v);
            assert(starts_piece(nlists[nlists.len() - 1], i));
        }
        if exists|k: int|
            0 <= k < nlists.len() && starts_piece(#[trigger] nlists[k], i) && nlists[k].n_value
                == v {
            let k = choose|k: int|
                0 <= k < nlists.len() && starts_piece(#[trigger] nlists[k], i) && nlists[k].n_value
                    == v;
            if k < front.len() {
                assert(starts_piece(front[k], i));
            }
        }
        if all.contains(v) && !before.contains(v) {
            let j = all.index_of(v);
            if j < before.len() {
                assert(before[j] == v);
            }
        }
    }
}

proof fn lemma_within(points: Seq<u64>, sect: SectionView, v: u64)
    ensures
        points_within(points, sect).contains(v) <==> v == sect.addr || points.contains(v)
            && sect.addr <= v <= sect.addr + sect.size,
        points_within(points, sect).len() <= points.len() + 1,
    decreases points.len(),
{
    let all = points_within(points, sect);
    if points.len() == 0 {
        assert(all[0] == sect.addr);
        if all.contains(v) {
            let j = all.index_of(v);
            assert(all[j] == v);
        }
    } else {
        let front = points.drop_last();
        lemma_within(front, sect, v);
        let before = points_within(front, sect);
        if before.contains(v) {
            let j = before.index_of(v);
            assert(all[j] == v);
        }
        if front.contains(v) {
            let j = front.index_of(v);
            assert(points[j] == v);
        }
        if points.last() == v {
            assert(points[points.len() - 1] == v);
            if sect.addr <= v <= sect.addr + sect.size {
                assert(all[before.len() as int] == v);
            }
        }
        if points.contains(v) {
            let j = points.index_of(v);
            if j < front.len() {
                assert(front[j] == v);
            }
        }
        if all.contains(v) && !before.contains(v) {
            let j = all.index_of(v);
            if j < before.len() {
                assert(before[j] == v);
            }
        }
    }
}

/// The pieces of a section of code or data start at the section's start and
/// at the symbols that are defined in it, but for alternate entry points,
/// and nowhere else.
pub proof fn lemma_symbols_start_pieces(
    nlists: Seq<NList>,
    i: int,
    sect: SectionView,
    v: u64,
)
    requires
        nlists.len() < usize::MAX,
    ensures
        piece_starts(split_points(nlists, i), sect).contains(v) <==> v == sect.addr || (sect.addr
            <= v <= sect.addr + sect.size && exists|k: int|
            0 <= k < nlists.len() && starts_piece(#[trigger] nlists[k], i) && nlists[k].n_value
                == v),
{
    lemma_points(nlists, i, v);
    let p = split_points(nlists, i);
    lemma_within(p, sect, v);
    order::lemma_distinct_sorted(points_within(p, sect));
}

proof fn lemma_pieces_from(
    data: Seq<u8>,
    shndx: int,
    sect: SectionView,
    starts: Seq<u64>,
    j: int,
    acc: Seq<IsecView>,
)
    requires
        0 <= j <= starts.len(),
        acc.len() == j,
        forall|i: int|
            0 <= i < j ==> piece_at(data, shndx, sect, starts, i) == Some(#[trigger] acc[i]),
        pieces_from(data, shndx, sect, starts, j, acc) is Ok,
    ensures
        ({
            let v = pieces_from(data, shndx, sect, starts, j, acc)->Ok_0;
            &&& v.len() == starts.len()
            &&& forall|i: int|
                0 <= i < starts.len() ==> piece_at(data, shndx, sect, starts, i) == Some(
                    #[trigger] v[i],
                )
        }),
    decreases starts.len() - j,
{
    if j < starts.len() {
        let p = piece_at(data, shndx, sect, starts, j)->0;
        lemma_pieces_from(data, shndx, sect, starts, j + 1, acc.push(p));
    }
}

/// True when the pieces cover a section: they follow one another from its
/// start to its end, and each holds the section's bytes at its place, none
/// in a section without bytes.
pub open spec fn covers(data: Seq<u8>, sect: SectionView, v: Seq<IsecView>) -> bool {
    let empty = sect.flags & 0xff == 0x1 || sect.flags & 0xff == 0x12;
    &&& v.len() > 0
    &&& v[0].input_addr == sect.addr
    &&& forall|j: int|
        0 <= j < v.len() ==> (#[trigger] v[j]).input_addr + v[j].size == if j + 1 < v.len() {
            v[j + 1].input_addr as int
        } else {
            sect.addr + sect.size
        }
    &&& forall|j: int|
        0 <= j < v.len() ==> (#[trigger] v[j]).data == if empty {
            Seq::empty()
        } else {
            data.subrange(
                sect.offset + (v[j].input_addr - sect.addr),
                sect.offset + (v[j].input_addr - sect.addr) + v[j].size,
            )
        }
    &&& forall|j: int| 0 <= j < v.len() ==> (#[trigger] v[j]).is_alive
}

/// The pieces of a section cover it.
pub proof fn lemma_pieces_cover(
    data: Seq<u8>,
    shndx: int,
    sect: SectionView,
    starts: Seq<u64>,
)
    requires
        sect.addr + sect.size <= u64::MAX,
        starts.len() > 0,
        starts[0] == sect.addr,
        forall|i: int|
            0 <= i < starts.len() ==> sect.addr <= #[trigger] starts[i] <= sect.addr + sect.size,
        forall|i: int, j: int| 0 <= i < j < starts.len() ==> starts[i] < starts[j],
        pieces_from(data, shndx, sect, starts, 0, Seq::empty()) is Ok,
    ensures
        covers(
            data,
            sect,
            pieces_from(data, shndx, sect, starts, 0, Seq::empty())->Ok_0,
        ),
        forall|j: int|
            0 <= j < starts.len() ==> (#[trigger] pieces_from(
                data,
                shndx,
                sect,
                starts,
                0,
                Seq::empty(),
            )->Ok_0[j]).input_addr == starts[j],
        pieces_from(data, shndx, sect, starts, 0, Seq::empty())->Ok_0.len() == starts.len(),
{
    lemma_pieces_from(data, shndx, sect, starts, 0, Seq::empty());
    let v = pieces_from(data, shndx, sect, starts, 0, Seq::empty())->Ok_0;
    assert forall|j: int| 0 <= j < v.len() implies (#[trigger] v[j]).input_addr + v[j].size == if j
        + 1 < v.len() {
        v[j + 1].input_addr as int
    } else {
        sect.addr + sect.size
    } by {
        assert(piece_at(data, shndx, sect, starts, j) == Some(v[j]));
        let size = piece_end(sect, starts, j) - starts[j];
        assert(0 <= size <= u64::MAX) by {
            if j + 1 < starts.len() {
                assert(starts[j] < starts[j + 1]);
            }
        }
        if j + 1 < v.len() {
            assert(piece_at(data, shndx, sect, starts, j + 1) == Some(v[j + 1]));
        }
    }
    assert(piece_at(data, shndx, sect, starts, 0) == Some(v[0]));
    assert forall|j: int| 0 <= j < v.len() implies (#[trigger] v[j]).data == if sect.flags & 0xff
        == 0x1 || sect.flags & 0xff == 0x12 {
        Seq::empty()
    } else {
        data.subrange(
            sect.offset + (v[j].input_addr - sect.addr),
            sect.offset + (v[j].input_addr - sect.addr) + v[j].size,
        )
    } by {
        assert(piece_at(data, shndx, sect, starts, j) == Some(v[j]));
        if j + 1 < starts.len() {
            assert(starts[j] < starts[j + 1]);
        }
    }
    assert forall|j: int| 0 <= j < v.len() implies (#[trigger] v[j]).is_alive by {
        assert(piece_at(data, shndx, sect, starts, j) == Some(v[j]));
    }
    assert forall|j: int| 0 <= j < starts.len() implies (#[trigger] v[j]).input_addr
        == starts[j] by {
        assert(piece_at(data, shndx, sect, starts, j) == Some(v[j]));
    }
}

/// The pieces of any section cover it, wherever it is cut.
pub proof fn lemma_section_covered(
    data: Seq<u8>,
    shndx: int,
    sect: SectionView,
    points: Seq<u64>,
)
    requires
        points.len() < usize::MAX,
        sect.size < usize::MAX,
        section_pieces(data, shndx, sect, points, Seq::empty()) is Ok,
    ensures
        covers(data, sect, section_pieces(data, shndx, sect, points, Seq::empty())->Ok_0),
{
    let p = super::split::section_points(data, sect, points)->Ok_0;
    assert(p.len() < usize::MAX) by {
        if sect.kind() == 0x2 {
            lemma_strings(
                data.subrange(sect.offset as int, sect.offset + sect.size),
                0,
                sect.addr,
                Seq::empty(),
            );
        }
    }
    super::split::lemma_piece_starts(p, sect);
    lemma_pieces_cover(data, shndx, sect, piece_starts(p, sect));
}

/// Where the string at `i` of a list of starts ends.
spec fn string_end(base: u64, p: Seq<u64>, end: int, i: int) -> int {
    if i + 1 < p.len() {
        p[i + 1] - base
    } else {
        end
    }
}

/// True when one string stands between start `i` and the next one: no zero
/// byte but the last one.
spec fn one_string(c: Seq<u8>, base: u64, p: Seq<u64>, end: int, i: int) -> bool {
    let a = p[i] - base;
    let b = string_end(base, p, end, i);
    &&& 0 <= a < b <= c.len()
    &&& c[b - 1] == 0
    &&& forall|k: int| a <= k < b - 1 ==> #[trigger] c[k] != 0
}

/// True when the starts cut the first `end` bytes into strings.
spec fn cuts_strings(c: Seq<u8>, base: u64, p: Seq<u64>, end: int) -> bool {
    &&& p.len() > 0 ==> p[0] == base
    &&& p.len() == 0 ==> end == 0
    &&& forall|i: int| 0 <= i < p.len() ==> #[trigger] one_string(c, base, p, end, i)
}

proof fn lemma_first_zero(c: Seq<u8>, from: int)
    requires
        0 <= from <= c.len(),
    ensures
        from <= bytes::index_of_byte(c, 0, from) <= c.len(),
        bytes::index_of_byte(c, 0, from) < c.len() ==> c[bytes::index_of_byte(c, 0, from)] == 0,
        forall|k: int| from <= k < bytes::index_of_byte(c, 0, from) ==> #[trigger] c[k] != 0,
    decreases c.len() - from,
{
    if from < c.len() && c[from] != 0 {
        lemma_first_zero(c, from + 1);
    }
}

proof fn lemma_strings(c: Seq<u8>, start: int, base: u64, acc: Seq<u64>)
    requires
        0 <= start <= c.len(),
        base + c.len() <= u64::MAX,
        acc.len() <= start,
        cuts_strings(c, base, acc, start),
        string_starts(c, start, base, acc) is Some,
    ensures
        string_starts(c, start, base, acc)->0.len() <= c.len(),
        cuts_strings(c, base, string_starts(c, start, base, acc)->0, c.len() as int),
    decreases c.len() - start,
{
    if start < c.len() {
        lemma_first_zero(c, start);
        let q = bytes::index_of_byte(c, 0, start);
        let next = acc.push((base + start) as u64);
        assert forall|i: int| 0 <= i < next.len() implies #[trigger] one_string(
            c,
            base,
            next,
            q + 1,
            i,
        ) by {
            if i < acc.len() {
                assert(one_string(c, base, acc, start, i));
                assert(acc[i] == next[i]);
                assert(string_end(base, acc, start, i) == string_end(base, next, q + 1, i));
            }
        }
        if acc.len() > 0 {
            assert(acc[0] == next[0]);
        }
        lemma_strings(c, q + 1, base, next);
    }
}

proof fn lemma_same_increasing(a: Seq<u64>, b: Seq<u64>)
    requires
        forall|i: int, j: int| 0 <= i < j < a.len() ==> a[i] < a[j],
        forall|i: int, j: int| 0 <= i < j < b.len() ==> b[i] < b[j],
        forall|v: u64| #[trigger] a.contains(v) <==> b.contains(v),
    ensures
        a == b,
    decreases a.len(),
{
    if a.len() == 0 {
        if b.len() > 0 {
            assert(b.contains(b[0]));
            assert(a.contains(b[0]));
        }
        assert(a =~= b);
    } else {
        let x = a.last();
        assert(a[a.len() - 1] == x);
        assert(a.contains(x));
        assert(b.contains(x));
        let k = b.index_of(x);
        if k < b.len() - 1 {
            let y = b.last();
            assert(b[b.len() - 1] == y);
            assert(b.contains(y));
            assert(a.contains(y));
            let m = a.index_of(y);
            assert(b[k] < b[b.len() - 1]);
            if m < a.len() - 1 {
                assert(a[m] < a[a.len() - 1]);
            }
            assert(false);
        }
        let c = a.drop_last();
        let d = b.drop_last();
        assert forall|v: u64| #[trigger] c.contains(v) <==> d.contains(v) by {
            if c.contains(v) {
                let i = c.index_of(v);
                assert(a[i] == v);
                assert(a.contains(v));
                assert(b.contains(v));
                let j = b.index_of(v);
                assert(a[i] < a[a.len() - 1]);
                assert(j < b.len() - 1);
                assert(d[j] == v);
            }
            if d.contains(v) {
                let i = d.index_of(v);
                assert(b[i] == v);
                assert(b.contains(v));
                assert(a.contains(v));
                let j = a.index_of(v);
                assert(b[i] < b[b.len() - 1]);
                assert(j < a.len() - 1);
                assert(c[j] == v);
            }
        }
        lemma_same_increasing(c, d);
        assert(a =~= c.push(x));
        assert(b =~= d.push(x));
    }
}

/// Points in increasing order from the section's start on are the starts of
/// the pieces.
proof fn lemma_starts_are_points(p: Seq<u64>, sect: SectionView)
    requires
        0 < p.len() < usize::MAX,
        p[0] == sect.addr,
        forall|i: int, j: int| 0 <= i < j < p.len() ==> p[i] < p[j],
        forall|i: int| 0 <= i < p.len() ==> #[trigger] p[i] <= sect.addr + sect.size,
    ensures
        piece_starts(p, sect) == p,
{
    let w = points_within(p, sect);
    lemma_within(p, sect, 0);
    order::lemma_distinct_sorted(w);
    let s = piece_starts(p, sect);
    assert forall|v: u64| #[trigger] s.contains(v) <==> p.contains(v) by {
        lemma_within(p, sect, v);
        if p.contains(v) {
            let i = p.index_of(v);
            assert(p[i] == v);
            if i > 0 {
                assert(p[0] < p[i]);
            }
        }
        if v == sect.addr {
            assert(p.contains(p[0]));
        }
    }
    lemma_same_increasing(s, p);
}

/// A section of strings is cut into its strings: each piece is one string
/// with the zero byte that ends it, and holds no other zero byte.
pub proof fn lemma_strings_are_pieces(
    data: Seq<u8>,
    shndx: int,
    sect: SectionView,
    points: Seq<u64>,
)
    requires
        sect.flags & 0xff == 0x2,
        0 < sect.size < usize::MAX,
        section_pieces(data, shndx, sect, points, Seq::empty()) is Ok,
    ensures
        ({
            let v = section_pieces(data, shndx, sect, points, Seq::empty())->Ok_0;
            &&& covers(data, sect, v)
            &&& forall|j: int|
                0 <= j < v.len() ==> {
                    let d = (#[trigger] v[j]).data;
                    &&& d.len() > 0
                    &&& d.last() == 0
                    &&& forall|k: int| 0 <= k < d.len() - 1 ==> #[trigger] d[k] != 0
                }
        }),
{
    let c = data.subrange(sect.offset as int, sect.offset + sect.size);
    let p = string_starts(c, 0, sect.addr, Seq::empty())->0;
    assert(super::split::section_points(data, sect, points) == Ok::<
        Seq<u64>,
        super::split::SplitError,
    >(p));
    lemma_strings(c, 0, sect.addr, Seq::empty());
    assert(p.len() > 0);
    lemma_cuts_increase(c, sect.addr, p);
    lemma_starts_are_points(p, sect);
    lemma_pieces_cover(data, shndx, sect, p);
    let v = section_pieces(data, shndx, sect, points, Seq::empty())->Ok_0;
    assert forall|j: int| 0 <= j < v.len() implies ({
        let d = (#[trigger] v[j]).data;
        &&& d.len() > 0
        &&& d.last() == 0
        &&& forall|k: int| 0 <= k < d.len() - 1 ==> #[trigger] d[k] != 0
    }) by {
        let a = p[j] - sect.addr;
        let b = if j + 1 < p.len() {
            p[j + 1] - sect.addr
        } else {
            c.len() as int
        };
        assert(one_string(c, sect.addr, p, c.len() as int, j));
        assert(string_end(sect.addr, p, c.len() as int, j) == b);
        assert(v[j].input_addr == p[j]);
        if j + 1 < p.len() {
            assert(v[j + 1].input_addr == p[j + 1]);
        }
        assert(v[j].size == b - a);
        let d = v[j].data;
        let t = sect.flags & 0xff;
        assert(t != 0x1 && t != 0x12);
        assert forall|k: int| 0 <= k < d.len() implies #[trigger] d[k] == c[a + k] by {}
        assert(d.last() == c[b - 1]);
    }
}

proof fn lemma_cuts_increase(c: Seq<u8>, base: u64, p: Seq<u64>)
    requires
        base + c.len() <= u64::MAX,
        cuts_strings(c, base, p, c.len() as int),
    ensures
        forall|i: int, j: int| 0 <= i < j < p.len() ==> p[i] < p[j],
        forall|i: int| 0 <= i < p.len() ==> #[trigger] p[i] <= base + c.len(),
{
    assert forall|i: int, j: int| 0 <= i < j < p.len() implies p[i] < p[j] by {
        lemma_cuts_step(c, base, p, i, j);
    }
    assert forall|i: int| 0 <= i < p.len() implies #[trigger] p[i] <= base + c.len() by {
        assert(one_string(c, base, p, c.len() as int, i));
    }
}

proof fn lemma_cuts_step(c: Seq<u8>, base: u64, p: Seq<u64>, i: int, j: int)
    requires
        cuts_strings(c, base, p, c.len() as int),
        0 <= i < j < p.len(),
    ensures
        p[i] < p[j],
    decreases j - i,
{
    assert(one_string(c, base, p, c.len() as int, j - 1));
    if i < j - 1 {
        lemma_cuts_step(c, base, p, i, j - 1);
    }
}

/// The size of the literals of a section of fixed-size literals.
pub open spec fn literal_size(sect: SectionView) -> int {
    let kind = sect.flags & 0xff;
    if kind == 0x3 {
        4
    } else if kind == 0x4 {
        8
    } else {
        16
    }
}

/// A section of fixed-size literals is cut into them: each piece has the
/// size of one literal, if the section is made of whole ones.
pub proof fn lemma_literals_are_pieces(
    data: Seq<u8>,
    shndx: int,
    sect: SectionView,
    points: Seq<u64>,
)
    requires
        sect.flags & 0xff == 0x3 || sect.flags & 0xff == 0x4 || sect.flags & 0xff == 0xe,
        0 < sect.size < usize::MAX,
        sect.size as int % literal_size(sect) == 0,
        section_pieces(data, shndx, sect, points, Seq::empty()) is Ok,
    ensures
        ({
            let v = section_pieces(data, shndx, sect, points, Seq::empty())->Ok_0;
            &&& covers(data, sect, v)
            &&& v.len() * literal_size(sect) == sect.size
            &&& forall|j: int| 0 <= j < v.len() ==> (#[trigger] v[j]).size == literal_size(sect)
        }),
{
    let step = literal_size(sect);
    let p = stepped(sect.addr, sect.size, step);
    assert(super::split::section_points(data, sect, points) == Ok::<
        Seq<u64>,
        super::split::SplitError,
    >(p));
    lemma_steps(sect.addr, sect.size, step);
    lemma_starts_are_points(p, sect);
    lemma_pieces_cover(data, shndx, sect, p);
    let v = section_pieces(data, shndx, sect, points, Seq::empty())->Ok_0;
    assert forall|j: int| 0 <= j < v.len() implies (#[trigger] v[j]).size == step by {
        assert(v[j].input_addr == p[j]);
        if j + 1 < p.len() {
            assert(v[j + 1].input_addr == p[j + 1]);
        }
        lemma_next_step(sect.addr, sect.size, step, j);
    }
}

proof fn lemma_next_step(base: u64, size: u64, step: int, j: int)
    requires
        step == 4 || step == 8 || step == 16,
        size as int % step == 0,
        base + size <= u64::MAX,
        0 <= j < stepped(base, size, step).len(),
    ensures
        ({
            let p = stepped(base, size, step);
            p[j] + step == if j + 1 < p.len() {
                p[j + 1] as int
            } else {
                base + size
            }
        }),
{
    lemma_steps(base, size, step);
}

proof fn lemma_steps(base: u64, size: u64, step: int)
    requires
        step == 4 || step == 8 || step == 16,
        size as int % step == 0,
        base + size <= u64::MAX,
    ensures
        ({
            let p = stepped(base, size, step);
            &&& p.len() * step == size
            &&& size > 0 ==> p.len() > 0 && p[0] == base
            &&& forall|i: int| 0 <= i < p.len() ==> #[trigger] p[i] == base + step * i
            &&& forall|i: int, j: int| 0 <= i < j < p.len() ==> p[i] < p[j]
            &&& forall|i: int| 0 <= i < p.len() ==> #[trigger] p[i] <= base + size
        }),
{
    let p = stepped(base, size, step);
    let z = size as int;
    if step == 4 {
        assert((z + step - 1) / step == (z + 3) / 4 && z % step == z % 4) by (nonlinear_arith)
            requires
                step == 4,
        ;
        assert(p.len() == z / 4);
    } else if step == 8 {
        assert((z + step - 1) / step == (z + 7) / 8 && z % step == z % 8) by (nonlinear_arith)
            requires
                step == 8,
        ;
        assert(p.len() == z / 8);
    } else {
        assert((z + step - 1) / step == (z + 15) / 16 && z % step == z % 16) by (nonlinear_arith)
            requires
                step == 16,
        ;
        assert(p.len() == z / 16);
    }
    assert forall|i: int| 0 <= i < p.len() implies #[trigger] p[i] == base + step * i && p[i] <= base
        + size by {
        assert(step * i <= size) by {
            if step == 4 {
                assert(4 * i <= size);
            } else if step == 8 {
                assert(8 * i <= size);
            } else {
                assert(16 * i <= size);
            }
        }
    }
    assert forall|i: int, j: int| 0 <= i < j < p.len() implies p[i] < p[j] by {
        assert(step * i < step * j) by (nonlinear_arith)
            requires
                step > 0,
                i < j,
        ;
    }
}

} // verus!
