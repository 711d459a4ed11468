//! Splitting sections into subsections.
use crate::input_files::{is_discarded_section, section_is};
use crate::input_sections::{InputSection, IsecView, NO_REPLACEMENT, UNSET};
use crate::macho::consts::{
    N_ALT_ENTRY, N_SECT, S_16BYTE_LITERALS, S_4BYTE_LITERALS, S_8BYTE_LITERALS, S_CSTRING_LITERALS,
    S_LITERAL_POINTERS, S_THREAD_LOCAL_ZEROFILL, S_ZEROFILL,
};
use crate::macho::{MachSection, NList, SectionView};
use crate::util::bytes;
use crate::util::order;
use vstd::prelude::*;
use vstd::string::*;

verus! {

/// Why a section cannot be split.
#[derive(Clone, Copy, Debug, PartialEq, Eq, Structural)]
pub enum SplitError {
    /// The section reaches past the end of the file, or of the address
    /// space.
    Truncated,
    /// The last string of a string section is not terminated.
    MalformedCstring,
}

/// True of an nlist entry that starts a new subsection of section `i`:
/// alternate entry points don't.
pub open spec fn splits_at(n: NList, i: int) -> bool {
    !n.stab() && n.kind() == N_SECT && n.n_desc & N_ALT_ENTRY == 0 && n.n_sect == i + 1
}

/// The addresses at which symbols split section `i`.
pub open spec fn split_points(nlists: Seq<NList>, i: int) -> Seq<u64>
    decreases nlists.len(),
{
    if nlists.len() == 0 {
        Seq::empty()
    } else {
        let head = split_points(nlists.drop_last(), i);
        if splits_at(nlists.last(), i) {
            head.push(nlists.last().n_value)
        } else {
            head
        }
    }
}

/// Collects the addresses at which symbols split each section.
pub fn find_split_points(nlists: &[NList], nsects: usize, split_ok: bool) -> (r: Vec<Vec<u64>>)
    ensures
        r.len() == nsects,
        forall|i: int|
            0 <= i < nsects ==> (#[trigger] r[i])@ == if split_ok {
                split_points(nlists@, i)
            } else {
                Seq::empty()
            },
{
    let mut out: Vec<Vec<u64>> = Vec::new();
    while out.len() < nsects
        invariant
            out.len() <= nsects,
            forall|i: int| 0 <= i < out.len() ==> (#[trigger] out[i])@ == Seq::<u64>::empty(),
        decreases nsects - out.len(),
    {
        out.push(Vec::new());
    }
    if !split_ok {
        return out;
    }
    let mut k: usize = 0;
    while k < nlists.len()
        invariant
            k <= nlists.len(),
            out.len() == nsects,
            forall|i: int|
                0 <= i < nsects ==> (#[trigger] out[i])@ == split_points(nlists@.take(k as int), i),
        decreases nlists.len() - k,
    {
        let n: NList = nlists[k];
        let ghost before = out@;
        proof {
            assert(nlists@.take(k + 1).drop_last() =~= nlists@.take(k as int));
        }
        if !n.is_stab() && n.n_type() == N_SECT && n.n_desc & N_ALT_ENTRY == 0 && n.n_sect >= 1
            && (n.n_sect as usize) <= nsects {
            out[n.n_sect as usize - 1].push(n.n_value);
        }
        k += 1;
        proof {
            assert forall|i: int| 0 <= i < nsects implies (#[trigger] out[i])@ == split_points(
                nlists@.take(k as int),
                i,
            ) by {
                assert(before[i]@ == split_points(nlists@.take(k - 1), i));
            }
        }
    }
    assert(nlists@.take(nlists.len() as int) =~= nlists@);
    out
}

/// True of a section that is copied into the output piece by piece:
/// __eh_frame is re-synthesized from parsed records, and the
/// __objc_imageinfo sections are merged into one record.
pub open spec fn kept(sect: SectionView, keep_debug: bool) -> bool {
    !(super::discarded(sect, keep_debug) || super::is_section(
        sect,
        "__TEXT".spec_bytes(),
        "__eh_frame".spec_bytes(),
    ) || sect.sectname == "__objc_imageinfo".spec_bytes())
}

/// True of a section that is copied into the output piece by piece.
pub fn is_kept(sect: &MachSection, keep_debug: bool) -> (r: bool)
    ensures
        r == kept(sect@, keep_debug),
{
    !(is_discarded_section(sect, keep_debug) || section_is(sect, "__TEXT", "__eh_frame")
        || bytes::same(sect.sectname.as_slice(), "__objc_imageinfo".as_bytes()))
}

/// True of a section made of literals, which is element-oriented rather
/// than symbol-oriented.
pub open spec fn is_literal_kind(kind: u32) -> bool {
    kind == S_CSTRING_LITERALS || kind == S_4BYTE_LITERALS || kind == S_8BYTE_LITERALS || kind
        == S_16BYTE_LITERALS || kind == S_LITERAL_POINTERS
}

/// The addresses at which the strings of `c` from `start` on begin, after
/// those in `acc`; `None` if the last string is not terminated.
pub open spec fn string_starts(c: Seq<u8>, start: int, base: u64, acc: Seq<u64>) -> Option<
    Seq<u64>,
>
    decreases c.len() - start,
{
    if start >= c.len() {
        Some(acc)
    } else {
        let q = bytes::index_of_byte(c, 0, start);
        if q < start || q >= c.len() {
            None
        } else {
            string_starts(c, q + 1, base, acc.push((base + start) as u64))
        }
    }
}

/// Finds where the strings of a section begin.
fn find_string_starts(c: &[u8], base: u64) -> (r: Option<Vec<u64>>)
    requires
        base + c.len() <= u64::MAX,
    ensures
        match r {
            Some(v) => string_starts(c@, 0, base, Seq::empty()) == Some(v@),
            None => string_starts(c@, 0, base, Seq::empty()) is None,
        },
{
    let mut out: Vec<u64> = Vec::new();
    let mut start: usize = 0;
    while start < c.len()
        invariant
            base + c.len() <= u64::MAX,
            start <= c.len(),
            string_starts(c@, 0, base, Seq::empty()) == string_starts(
                c@,
                start as int,
                base,
                out@,
            ),
        decreases c.len() - start,
    {
        let q: usize = bytes::find_byte(c, 0, start);
        if q >= c.len() {
            return None;
        }
        out.push(base + start as u64);
        start = q + 1;
    }
    Some(out)
}

/// Every `step`-th address of a section.
pub open spec fn stepped(base: u64, size: u64, step: int) -> Seq<u64> {
    Seq::new(((size + step - 1) / step) as nat, |i: int| (base + step * i) as u64)
}

/// Lists every `step`-th address of a section.
fn list_stepped(base: u64, size: u64, step: u64) -> (r: Vec<u64>)
    requires
        base + size <= u64::MAX,
        step == 4 || step == 8 || step == 16,
    ensures
        r@ == stepped(base, size, step as int),
{
    let mut out: Vec<u64> = Vec::new();
    let n: u64 = if size % step == 0 {
        size / step
    } else {
        size / step + 1
    };
    let ghost all = stepped(base, size, step as int);
    assert(all.len() == n && step * n < size + step) by {
        if step == 4 {
            assert(step * n == 4 * n) by (nonlinear_arith)
                requires
                    step == 4,
            ;
        } else if step == 8 {
            assert(step * n == 8 * n) by (nonlinear_arith)
                requires
                    step == 8,
            ;
        } else {
            assert(step * n == 16 * n) by (nonlinear_arith)
                requires
                    step == 16,
            ;
        }
    }
    let mut i: u64 = 0;
    let mut o: u64 = 0;
    while i < n
        invariant
            base + size <= u64::MAX,
            0 < step <= 16,
            i <= n,
            o == step * i,
            step * n < size + step,
            all == stepped(base, size, step as int),
            all.len() == n,
            out@ == all.take(i as int),
        decreases n - i,
    {
        assert(step * i + step <= step * n) by (nonlinear_arith)
            requires
                i + 1 <= n,
                0 < step,
        ;
        out.push(base + o);
        i += 1;
        assert(out@ =~= all.take(i as int));
        if i < n {
            assert(step * (i - 1) + step == step * i) by (nonlinear_arith);
            assert(step * i + step <= step * n) by (nonlinear_arith)
                requires
                    i + 1 <= n,
                    0 < step,
            ;
            o += step;
        } else {
            return out;
        }
    }
    assert(out@ =~= all);
    out
}

/// The addresses at which a section is split: literal sections at each
/// element, so that identical elements can be merged across objects, and
/// other sections at their symbols.
pub open spec fn section_points(data: Seq<u8>, sect: SectionView, points: Seq<u64>) -> Result<
    Seq<u64>,
    SplitError,
> {
    let kind = sect.kind();
    if !is_literal_kind(kind) {
        Ok(points)
    } else if sect.offset + sect.size > data.len() {
        Err(SplitError::Truncated)
    } else if kind == S_CSTRING_LITERALS {
        match string_starts(
            data.subrange(sect.offset as int, sect.offset + sect.size),
            0,
            sect.addr,
            Seq::empty(),
        ) {
            Some(p) => Ok(p),
            None => Err(SplitError::MalformedCstring),
        }
    } else if kind == S_4BYTE_LITERALS {
        Ok(stepped(sect.addr, sect.size, 4))
    } else if kind == S_8BYTE_LITERALS {
        Ok(stepped(sect.addr, sect.size, 8))
    } else if kind == S_16BYTE_LITERALS {
        Ok(stepped(sect.addr, sect.size, 16))
    } else {
        Ok(Seq::empty())
    }
}

/// Finds the addresses at which a section is split.
fn find_section_points(data: &[u8], sect: &MachSection, points: Vec<u64>) -> (r: Result<
    Vec<u64>,
    SplitError,
>)
    requires
        sect.addr + sect.size <= u64::MAX,
    ensures
        match r {
            Ok(v) => section_points(data@, sect@, points@) == Ok::<Seq<u64>, SplitError>(v@),
            Err(e) => section_points(data@, sect@, points@) == Err::<Seq<u64>, SplitError>(e),
        },
{
    let kind: u32 = sect.section_type();
    if !(kind == S_CSTRING_LITERALS || kind == S_4BYTE_LITERALS || kind == S_8BYTE_LITERALS || kind
        == S_16BYTE_LITERALS || kind == S_LITERAL_POINTERS) {
        return Ok(points);
    }
    let off: u64 = sect.offset as u64;
    let len: u64 = data.len() as u64;
    if sect.size > len || off > len - sect.size {
        return Err(SplitError::Truncated);
    }
    if kind == S_CSTRING_LITERALS {
        let c: &[u8] = vstd::slice::slice_subrange(
            data,
            off as usize,
            (off + sect.size) as usize,
        );
        match find_string_starts(c, sect.addr) {
            Some(v) => Ok(v),
            None => Err(SplitError::MalformedCstring),
        }
    } else if kind == S_4BYTE_LITERALS {
        Ok(list_stepped(sect.addr, sect.size, 4))
    } else if kind == S_8BYTE_LITERALS {
        Ok(list_stepped(sect.addr, sect.size, 8))
    } else if kind == S_16BYTE_LITERALS {
        Ok(list_stepped(sect.addr, sect.size, 16))
    } else {
        let none: Vec<u64> = Vec::new();
        assert(none@ =~= Seq::<u64>::empty());
        Ok(none)
    }
}

/// Those of `points` that lie within the section, and its start.
pub open spec fn points_within(points: Seq<u64>, sect: SectionView) -> Seq<u64>
    decreases points.len(),
{
    if points.len() == 0 {
        seq![sect.addr]
    } else {
        let head = points_within(points.drop_last(), sect);
        if sect.addr <= points.last() <= sect.addr + sect.size {
            head.push(points.last())
        } else {
            head
        }
    }
}

/// Keeps those of `points` that lie within the section, and its start.
fn keep_within(points: &Vec<u64>, sect: &MachSection) -> (r: Vec<u64>)
    requires
        sect.addr + sect.size <= u64::MAX,
    ensures
        r@ == points_within(points@, sect@),
{
    let mut out: Vec<u64> = Vec::new();
    out.push(sect.addr);
    let mut i: usize = 0;
    assert(out@ =~= points_within(points@.take(0), sect@));
    while i < points.len()
        invariant
            sect.addr + sect.size <= u64::MAX,
            i <= points.len(),
            out@ == points_within(points@.take(i as int), sect@),
        decreases points.len() - i,
    {
        let p: u64 = points[i];
        assert(points@.take(i + 1).drop_last() =~= points@.take(i as int));
        if sect.addr <= p && p <= sect.addr + sect.size {
            out.push(p);
        }
        i += 1;
    }
    assert(points@.take(points.len() as int) =~= points@);
    out
}

/// The addresses at which the pieces of a section start, in order.
pub open spec fn piece_starts(points: Seq<u64>, sect: SectionView) -> Seq<u64> {
    order::distinct_sorted(points_within(points, sect))
}

proof fn lemma_points_within(points: Seq<u64>, sect: SectionView, x: u64)
    ensures
        points_within(points, sect).contains(x) ==> sect.addr <= x <= sect.addr + sect.size,
        points_within(points, sect).contains(sect.addr),
        points_within(points, sect).len() <= points.len() + 1,
    decreases points.len(),
{
    let r = points_within(points, sect);
    if points.len() == 0 {
        assert(r[0] == sect.addr);
    } else {
        let head = points_within(points.drop_last(), sect);
        lemma_points_within(points.drop_last(), sect, x);
        let k = choose|k: int| 0 <= k < head.len() && head[k] == sect.addr;
        assert(r[k] == sect.addr);
        if r.contains(x) && !head.contains(x) {
            assert(x == points.last());
        }
    }
}

/// The pieces of a section start at its own start, in strictly increasing
/// order, and none starts past its end.
pub proof fn lemma_piece_starts(points: Seq<u64>, sect: SectionView)
    requires
        points.len() < usize::MAX,
    ensures
        piece_starts(points, sect).len() > 0,
        piece_starts(points, sect)[0] == sect.addr,
        forall|i: int|
            0 <= i < piece_starts(points, sect).len() ==> sect.addr <= #[trigger] piece_starts(
                points,
                sect,
            )[i] <= sect.addr + sect.size,
        forall|i: int, j: int|
            0 <= i < j < piece_starts(points, sect).len() ==> piece_starts(points, sect)[i]
                < piece_starts(points, sect)[j],
{
    let p = points_within(points, sect);
    let s = piece_starts(points, sect);
    lemma_points_within(points, sect, sect.addr);
    order::lemma_sorted_values(p);
    order::lemma_without_repeats(order::sorted_values(p));
    assert(s.contains(sect.addr));
    let k = choose|k: int| 0 <= k < s.len() && s[k] == sect.addr;
    assert forall|i: int| 0 <= i < s.len() implies sect.addr <= #[trigger] s[i] <= sect.addr
        + sect.size by {
        assert(s.contains(s[i]));
        lemma_points_within(points, sect, s[i]);
    }
    if k > 0 {
        assert(s[0] < s[k]);
    }
}

/// A new piece of a section.
pub open spec fn piece(shndx: int, sect: SectionView, start: u64, size: u64, data: Seq<u8>) -> IsecView {
    IsecView {
        obj: UNSET,
        shndx: shndx as u32,
        p2align: (sect.p2align % 256) as u8,
        input_addr: start,
        size,
        data,
        relocs: Seq::empty(),
        osec: UNSET,
        output_offset: 0,
        is_alive: true,
        replacement: NO_REPLACEMENT,
        unwind_offset: 0,
        nunwind: 0,
    }
}

/// True of a section that occupies addresses but no file bytes.
pub open spec fn zerofill_kind(kind: u32) -> bool {
    kind == S_ZEROFILL || kind == S_THREAD_LOCAL_ZEROFILL
}

/// Where the piece after the one at `j` starts: the next start, or the
/// section's end.
pub open spec fn piece_end(sect: SectionView, starts: Seq<u64>, j: int) -> int {
    if j + 1 < starts.len() {
        starts[j + 1] as int
    } else {
        sect.addr + sect.size
    }
}

/// The piece at `j`, if the file holds all of it.
pub open spec fn piece_at(
    data: Seq<u8>,
    shndx: int,
    sect: SectionView,
    starts: Seq<u64>,
    j: int,
) -> Option<IsecView> {
    let start = starts[j];
    let size = piece_end(sect, starts, j) - start;
    let lo = sect.offset + (start - sect.addr);
    if zerofill_kind(sect.kind()) {
        Some(piece(shndx, sect, start, size as u64, Seq::empty()))
    } else if lo + size <= data.len() {
        Some(piece(shndx, sect, start, size as u64, data.subrange(lo, lo + size)))
    } else {
        None
    }
}

/// The pieces from `j` on, after those in `acc`.
pub open spec fn pieces_from(
    data: Seq<u8>,
    shndx: int,
    sect: SectionView,
    starts: Seq<u64>,
    j: int,
    acc: Seq<IsecView>,
) -> Result<Seq<IsecView>, SplitError>
    decreases starts.len() - j,
{
    if j < 0 || j >= starts.len() {
        Ok(acc)
    } else {
        match piece_at(data, shndx, sect, starts, j) {
            Some(p) => pieces_from(data, shndx, sect, starts, j + 1, acc.push(p)),
            None => Err(SplitError::Truncated),
        }
    }
}

/// The pieces of a section, after those in `acc`.
pub open spec fn section_pieces(
    data: Seq<u8>,
    shndx: int,
    sect: SectionView,
    points: Seq<u64>,
    acc: Seq<IsecView>,
) -> Result<Seq<IsecView>, SplitError> {
    if sect.addr + sect.size > u64::MAX {
        Err(SplitError::Truncated)
    } else {
        match section_points(data, sect, points) {
            Ok(p) => pieces_from(data, shndx, sect, piece_starts(p, sect), 0, acc),
            Err(e) => Err(e),
        }
    }
}

/// True when `after` begins with the subsections of `before`.
pub open spec fn extends(before: Seq<InputSection>, after: Seq<InputSection>) -> bool {
    &&& before.len() <= after.len()
    &&& crate::input_sections::isec_views(after).take(before.len() as int)
        == crate::input_sections::isec_views(before)
}

/// True when the subsections from `from` on are at increasing addresses.
pub open spec fn increasing_from(isecs: Seq<InputSection>, from: int) -> bool {
    forall|i: int, j: int|
        from <= i < j < isecs.len() ==> (#[trigger] isecs[i]).input_addr < (
        #[trigger] isecs[j]).input_addr
}

/// Splits one section into pieces, appending them to `out`.
pub fn split_section(
    data: &[u8],
    shndx: usize,
    sect: &MachSection,
    points: Vec<u64>,
    out: &mut Vec<InputSection>,
) -> (r: Result<(), SplitError>)
    requires
        shndx < UNSET,
        points.len() < usize::MAX,
    ensures
        match r {
            Ok(()) => section_pieces(
                data@,
                shndx as int,
                sect@,
                points@,
                crate::input_sections::isec_views(old(out)@),
            ) == Ok::<Seq<IsecView>, SplitError>(
                crate::input_sections::isec_views(final(out)@),
            ) && extends(old(out)@, final(out)@) && increasing_from(
                final(out)@,
                old(out).len() as int,
            ),
            Err(e) => section_pieces(
                data@,
                shndx as int,
                sect@,
                points@,
                crate::input_sections::isec_views(old(out)@),
            ) == Err::<Seq<IsecView>, SplitError>(e),
        },
{
    let ghost before = out@;
    let ghost base = crate::input_sections::isec_views(before);
    if sect.size > u64::MAX - sect.addr {
        return Err(SplitError::Truncated);
    }
    let pts: Vec<u64> = match find_section_points(data, sect, points) {
        Ok(p) => p,
        Err(e) => return Err(e),
    };
    let within: Vec<u64> = keep_within(&pts, sect);
    let starts: Vec<u64> = order::sort_distinct(within.as_slice());
    proof {
        assert(within.len() <= usize::MAX);
        lemma_points_within(pts@, sect@, 0);
        order::lemma_sorted_values(within@);
        order::lemma_without_repeats(order::sorted_values(within@));
        assert(starts@ == piece_starts(pts@, sect@));
        lemma_starts_of(within@, pts@, sect@);
    }
    let kind: u32 = sect.section_type();
    let zerofill: bool = kind == S_ZEROFILL || kind == S_THREAD_LOCAL_ZEROFILL;
    let end_addr: u64 = sect.addr + sect.size;
    let mut j: usize = 0;
    assert(crate::input_sections::isec_views(out@).take(before.len() as int) =~= base);
    while j < starts.len()
        invariant
            j <= starts.len(),
            shndx < UNSET,
            before == old(out)@,
            base == crate::input_sections::isec_views(before),
            end_addr == sect.addr + sect.size,
            starts@ == piece_starts(pts@, sect@),
            zerofill == zerofill_kind(sect@.kind()),
            section_pieces(data@, shndx as int, sect@, points@, base) == pieces_from(
                data@,
                shndx as int,
                sect@,
                starts@,
                j as int,
                crate::input_sections::isec_views(out@),
            ),
            out.len() == before.len() + j,
            crate::input_sections::isec_views(out@).take(before.len() as int) == base,
            forall|i: int|
                0 <= i < starts.len() ==> sect.addr <= #[trigger] starts[i] <= end_addr,
            forall|i: int, k: int| 0 <= i < k < starts.len() ==> starts[i] < starts[k],
            forall|i: int|
                before.len() <= i < out.len() ==> (#[trigger] out[i]).input_addr == starts[i
                    - before.len()],
        decreases starts.len() - j,
    {
        let start: u64 = starts[j];
        let end: u64 = if j + 1 < starts.len() {
            starts[j + 1]
        } else {
            end_addr
        };
        let size: u64 = end - start;
        let contents: Vec<u8> = if zerofill {
            Vec::new()
        } else {
            let rel: u64 = start - sect.addr;
            let lo: u128 = sect.offset as u128 + rel as u128;
            let hi: u128 = lo + size as u128;
            if hi > data.len() as u128 {
                return Err(SplitError::Truncated);
            }
            bytes::copy_range(data, lo as usize, hi as usize)
        };
        let ghost mid = crate::input_sections::isec_views(out@);
        out.push(
            InputSection {
                obj: UNSET,
                shndx: shndx as u32,
                p2align: (sect.p2align % 256) as u8,
                input_addr: start,
                size,
                data: contents,
                relocs: Vec::new(),
                osec: UNSET,
                output_offset: 0,
                is_alive: true,
                replacement: NO_REPLACEMENT,
                unwind_offset: 0,
                nunwind: 0,
            },
        );
        proof {
            let p = piece_at(data@, shndx as int, sect@, starts@, j as int).unwrap();
            assert(out[out.len() - 1]@ =~= p);
            assert(crate::input_sections::isec_views(out@) =~= mid.push(p));
            assert(crate::input_sections::isec_views(out@).take(before.len() as int) =~= base);
        }
        j += 1;
    }
    Ok(())
}

proof fn lemma_starts_of(within: Seq<u64>, pts: Seq<u64>, sect: SectionView)
    requires
        within == points_within(pts, sect),
        within.len() <= usize::MAX,
    ensures
        ({
            let s = piece_starts(pts, sect);
            &&& forall|i: int|
                0 <= i < s.len() ==> sect.addr <= #[trigger] s[i] <= sect.addr + sect.size
            &&& forall|i: int, k: int| 0 <= i < k < s.len() ==> s[i] < s[k]
        }),
{
    let s = piece_starts(pts, sect);
    order::lemma_sorted_values(within);
    order::lemma_without_repeats(order::sorted_values(within));
    assert forall|i: int| 0 <= i < s.len() implies sect.addr <= #[trigger] s[i] <= sect.addr
        + sect.size by {
        assert(s.contains(s[i]));
        lemma_points_within(pts, sect, s[i]);
    }
}

} // verus!
