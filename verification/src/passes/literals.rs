//! Merges identical literals across all inputs.
use crate::input_sections::{InputSection, NO_REPLACEMENT};
use crate::inputs::{resolve_isec, Inputs};
use crate::macho::consts::{
    S_16BYTE_LITERALS, S_4BYTE_LITERALS, S_8BYTE_LITERALS, S_CSTRING_LITERALS,
};
use crate::name_map;
use crate::name_map::NameMap;
use crate::symbol::Symbol;
use crate::util::bytes;
use vstd::prelude::*;

verus! {

/// True for a section type whose elements are literals.
pub open spec fn is_literal(kind: u32) -> bool {
    kind == S_CSTRING_LITERALS || kind == S_4BYTE_LITERALS || kind == S_8BYTE_LITERALS || kind
        == S_16BYTE_LITERALS
}

/// What makes two literals the same: the section type, in front of the
/// contents. `None` for anything but a live literal that was not merged.
pub open spec fn literal_key(x: Inputs, i: int) -> Option<Seq<u8>> {
    let s = x.isecs[i];
    let kind = x.header(s).kind();
    if s.is_alive && s.replacement == NO_REPLACEMENT && is_literal(kind) {
        Some(bytes::le32(kind) + s.data@)
    } else {
        None
    }
}

/// The first literal with a key at or behind `from`.
pub open spec fn first_copy(x: Inputs, key: Seq<u8>, from: int) -> int
    decreases x.isecs.len() - from,
{
    if from >= x.isecs.len() || literal_key(x, from) == Some(key) {
        from
    } else {
        first_copy(x, key, from + 1)
    }
}

/// The largest alignment of a literal and of its copies among the first `n`
/// subsections.
pub open spec fn max_align(x: Inputs, i: int, n: int) -> u8
    decreases n,
{
    if n <= i + 1 || n <= 0 {
        x.isecs[i].p2align
    } else {
        let before = max_align(x, i, n - 1);
        if literal_key(x, n - 1) == literal_key(x, i) && x.isecs[n - 1].p2align > before {
            x.isecs[n - 1].p2align
        } else {
            before
        }
    }
}

/// A subsection once the first `n` were merged: a copy is redirected to the
/// first one, which gets the largest alignment.
pub open spec fn merged_at(x: Inputs, i: int, n: int) -> InputSection {
    let s = x.isecs[i];
    match literal_key(x, i) {
        Some(key) if i < n => {
            let first = first_copy(x, key, 0);
            if first < i {
                InputSection { replacement: first as u32, ..s }
            } else {
                InputSection { p2align: max_align(x, i, n), ..s }
            }
        },
        _ => s,
    }
}

/// All subsections after the merge.
pub open spec fn merged(x: Inputs) -> Seq<InputSection> {
    Seq::new(x.isecs@.len(), |i: int| merged_at(x, i, x.isecs.len() as int))
}

/// A symbol defined in a merged-away copy points at the surviving one.
pub open spec fn moved(isecs: Seq<InputSection>, s: Symbol) -> Symbol {
    match s.section() {
        Some(i) => s.with_isec(Some(crate::inputs::survivor(isecs, i as int) as u32)),
        None => s,
    }
}

proof fn lemma_first_copy(x: Inputs, key: Seq<u8>, from: int, i: int)
    requires
        0 <= from <= i < x.isecs.len(),
        literal_key(x, i) == Some(key),
    ensures
        from <= first_copy(x, key, from) <= i,
        literal_key(x, first_copy(x, key, from)) == Some(key),
    decreases i - from,
{
    if literal_key(x, from) != Some(key) {
        lemma_first_copy(x, key, from + 1, i);
    }
}

proof fn lemma_no_copy(x: Inputs, key: Seq<u8>, from: int, i: int)
    requires
        0 <= from <= i < x.isecs.len(),
        literal_key(x, i) == Some(key),
        forall|j: int| from <= j < i ==> #[trigger] literal_key(x, j) != Some(key),
    ensures
        first_copy(x, key, from) == i,
    decreases i - from,
{
    if from < i {
        assert(literal_key(x, from) != Some(key));
        lemma_no_copy(x, key, from + 1, i);
    }
}

/// What the map of literals holds once the first `n` subsections were seen.
pub open spec fn map_holds(x: Inputs, m: Map<Seq<u8>, u32>, n: int) -> bool {
    &&& forall|j: int|
        0 <= j < n ==> (#[trigger] literal_key(x, j) matches Some(key) ==> m.contains_key(key)
            && m[key] == first_copy(x, key, 0))
    &&& forall|key: Seq<u8>| #[trigger] m.contains_key(key) ==> seen(x, key, n)
}

/// True when a literal with the key is among the first `n` subsections.
#[verifier::opaque]
pub open spec fn seen(x: Inputs, key: Seq<u8>, n: int) -> bool {
    exists|j: int| 0 <= j < n && #[trigger] literal_key(x, j) == Some(key)
}

proof fn lemma_seen(x: Inputs, key: Seq<u8>, j: int, n: int)
    requires
        0 <= j < n,
        literal_key(x, j) == Some(key),
    ensures
        seen(x, key, n),
{
    reveal(seen);
}

proof fn lemma_seen_grows(x: Inputs, m: Map<Seq<u8>, u32>, n: int)
    requires
        map_holds(x, m, n),
    ensures
        forall|key: Seq<u8>| #[trigger] m.contains_key(key) ==> seen(x, key, n + 1),
{
    assert forall|key: Seq<u8>| #[trigger] m.contains_key(key) implies seen(x, key, n + 1) by {
        assert(seen(x, key, n));
        reveal(seen);
    }
}

/// Where the copy of a literal with the key is.
proof fn lemma_seen_first(x: Inputs, key: Seq<u8>, n: int)
    requires
        seen(x, key, n),
        n <= x.isecs.len(),
    ensures
        0 <= first_copy(x, key, 0) < n,
        literal_key(x, first_copy(x, key, 0)) == Some(key),
{
    reveal(seen);
    let j = choose|j: int| 0 <= j < n && #[trigger] literal_key(x, j) == Some(key);
    lemma_first_copy(x, key, 0, j);
}

/// One step of the merge changes the subsection and the first copy alone.
proof fn lemma_step(x: Inputs, k: int, i: int)
    requires
        0 <= k < x.isecs.len(),
        0 <= i < x.isecs.len(),
        i != k,
    ensures
        ({
            let grows = literal_key(x, k) is Some && literal_key(x, i) == literal_key(x, k) && i < k
                && first_copy(x, literal_key(x, k)->0, 0) == i;
            let before = merged_at(x, i, k);
            if grows && x.isecs[k].p2align > before.p2align {
                merged_at(x, i, k + 1) == (InputSection { p2align: x.isecs[k].p2align, ..before })
            } else {
                merged_at(x, i, k + 1) == before
            }
        }),
{
    if i < k && literal_key(x, i) is Some {
        let key = literal_key(x, i)->0;
        lemma_first_copy(x, key, 0, i);
    }
}

/// Handles one subsection.
fn merge_one(start: Ghost<Inputs>, x: &mut Inputs, map: &mut NameMap, k: usize, kind: u32)
    requires
        old(x).isecs.len() == start@.isecs.len() < NO_REPLACEMENT,
        k < old(x).isecs.len(),
        kind == start@.header(start@.isecs[k as int]).kind(),
        forall|i: int|
            0 <= i < old(x).isecs.len() ==> #[trigger] old(x).isecs[i] == merged_at(
                start@,
                i,
                k as int,
            ),
        map_holds(start@, name_map::entries(*old(map)), k as int),
    ensures
        final(x).isecs.len() == old(x).isecs.len(),
        *final(x) == (Inputs { isecs: final(x).isecs, ..*old(x) }),
        forall|i: int|
            0 <= i < final(x).isecs.len() ==> #[trigger] final(x).isecs[i] == merged_at(
                start@,
                i,
                k + 1,
            ),
        map_holds(start@, name_map::entries(*final(map)), k + 1),
{
    let ghost s0 = start@;
    let ghost m = name_map::entries(*map);
    assert(x.isecs[k as int] == s0.isecs[k as int]);
    let literal: bool = x.isecs[k].is_alive && x.isecs[k].replacement == NO_REPLACEMENT && (kind
        == S_CSTRING_LITERALS || kind == S_4BYTE_LITERALS || kind == S_8BYTE_LITERALS || kind
        == S_16BYTE_LITERALS);
    proof {
        lemma_seen_grows(s0, m, k as int);
        assert forall|i: int| 0 <= i < x.isecs.len() && i != k implies #[trigger] x.isecs[i]
            == merged_at(s0, i, k as int) && (literal_key(s0, k as int) is None ==> merged_at(
            s0,
            i,
            k + 1,
        ) == x.isecs[i]) by {
            lemma_step(s0, k as int, i);
        }
    }
    if !literal {
        assert(literal_key(s0, k as int) is None);
        return ;
    }
    let mut key: Vec<u8> = Vec::new();
    bytes::push32(&mut key, kind);
    bytes::append(&mut key, x.isecs[k].data.as_slice());
    assert(key@ =~= bytes::le32(kind) + s0.isecs[k as int].data@);
    let ghost kv = key@;
    assert(literal_key(s0, k as int) == Some(kv));
    match map.get(key.as_slice()) {
        Some(w) => {
            proof {
                lemma_seen_first(s0, kv, k as int);
                reveal(seen);
                let j = choose|j: int| 0 <= j < k && #[trigger] literal_key(s0, j) == Some(kv);
                assert(literal_key(s0, j) == Some(kv));
                assert(w == first_copy(s0, kv, 0));
            }
            let first: usize = w as usize;
            let align: u8 = x.isecs[k].p2align;
            x.isecs[k].replacement = w;
            if align > x.isecs[first].p2align {
                x.isecs[first].p2align = align;
            }
            assert forall|i: int| 0 <= i < x.isecs.len() implies #[trigger] x.isecs[i]
                == merged_at(s0, i, k + 1) by {
                if i != k {
                    lemma_step(s0, k as int, i);
                }
            }
        },
        None => {
            proof {
                assert forall|j: int| 0 <= j < k implies #[trigger] literal_key(s0, j) != Some(
                    kv,
                ) by {}
                lemma_no_copy(s0, kv, 0, k as int);
                lemma_seen(s0, kv, k as int, k + 1);
            }
            map.insert(key, k as u32);
            assert forall|i: int| 0 <= i < x.isecs.len() implies #[trigger] x.isecs[i]
                == merged_at(s0, i, k + 1) by {
                if i != k {
                    lemma_step(s0, k as int, i);
                }
            }
        },
    }
}

/// Redirects the symbols of merged-away copies.
fn move_symbols(syms: &mut Vec<Symbol>, isecs: &Vec<InputSection>)
    requires
        crate::inputs::redirects_exist(isecs@),
        isecs.len() < NO_REPLACEMENT,
        forall|i: int|
            0 <= i < old(syms).len() ==> ((#[trigger] old(syms)[i]).section() matches Some(s) ==> s
                < isecs.len()),
    ensures
        final(syms)@ == old(syms)@.map_values(|s: Symbol| moved(isecs@, s)),
        forall|i: int|
            0 <= i < final(syms).len() ==> ((#[trigger] final(syms)[i]).section() matches Some(s)
                ==> s < isecs.len()),
{
    let ghost start = syms@;
    let mut n: usize = 0;
    while n < syms.len()
        invariant
            crate::inputs::redirects_exist(isecs@),
            isecs.len() < NO_REPLACEMENT,
            n <= syms.len(),
            syms.len() == start.len(),
            forall|i: int|
                0 <= i < start.len() ==> ((#[trigger] start[i]).section() matches Some(s) ==> s
                    < isecs.len()),
            forall|i: int| n <= i < syms.len() ==> #[trigger] syms[i] == start[i],
            forall|i: int|
                0 <= i < n ==> #[trigger] syms[i] == moved(isecs@, start[i]) && (
                syms[i].section() matches Some(s) ==> s < isecs.len()),
        decreases syms.len() - n,
    {
        assert(syms[n as int] == start[n as int]);
        if let Some(i) = syms[n].isec() {
            let to: usize = resolve_isec(isecs, i as usize);
            syms[n].set_isec(Some(to as u32));
        }
        n += 1;
    }
    assert(syms@ =~= start.map_values(|s: Symbol| moved(isecs@, s)));
}

/// Merges identical literals: the first live copy of each stays, with the
/// largest alignment of all, and the others redirect to it. Symbols defined
/// in a merged-away copy point at the surviving one.
pub fn merge_literals(x: &mut Inputs)
    requires
        old(x).wf(),
    ensures
        final(x).isecs@ == merged(*old(x)),
        final(x).symtab.syms@ == old(x).symtab.syms@.map_values(
            |s: Symbol| moved(merged(*old(x)), s),
        ),
        final(x).symtab.shards == old(x).symtab.shards,
        final(x).objs == old(x).objs,
        final(x).synthetic_hdrs == old(x).synthetic_hdrs,
        final(x).unwind_records == old(x).unwind_records,
        final(x).cies == old(x).cies,
        final(x).fdes == old(x).fdes,
        final(x).wf(),
{
    let ghost start = *x;
    let mut kinds: Vec<u32> = Vec::new();
    while kinds.len() < x.isecs.len()
        invariant
            x.wf(),
            *x == start,
            kinds.len() <= x.isecs.len(),
            forall|i: int|
                0 <= i < kinds.len() ==> #[trigger] kinds[i] == start.header(start.isecs[i]).kind(),
        decreases x.isecs.len() - kinds.len(),
    {
        let i: usize = kinds.len();
        let k: u32 = x.hdr_of(i).section_type();
        kinds.push(k);
    }
    let mut map: NameMap = NameMap::new();
    let mut k: usize = 0;
    while k < x.isecs.len()
        invariant
            start.wf(),
            k <= x.isecs.len(),
            x.isecs.len() == start.isecs.len(),
            kinds.len() == x.isecs.len(),
            *x == (Inputs { isecs: x.isecs, ..start }),
            forall|i: int|
                0 <= i < kinds.len() ==> #[trigger] kinds[i] == start.header(start.isecs[i]).kind(),
            forall|i: int|
                0 <= i < x.isecs.len() ==> #[trigger] x.isecs[i] == merged_at(start, i, k as int),
            map_holds(start, name_map::entries(map), k as int),
        decreases x.isecs.len() - k,
    {
        merge_one(Ghost(start), x, &mut map, k, kinds[k]);
        k += 1;
    }
    assert(x.isecs@ =~= merged(start));
    proof {
        assert forall|i: int| 0 <= i < x.isecs.len() implies (#[trigger] x.isecs@[i]).replacement
            == NO_REPLACEMENT || x.isecs@[i].replacement < x.isecs.len() by {
            assert(start.isec_ok(start.isecs[i]));
            if literal_key(start, i) is Some {
                lemma_first_copy(start, literal_key(start, i)->0, 0, i);
            }
        }
        assert forall|i: int| 0 <= i < x.symtab.syms.len() implies ((
        #[trigger] x.symtab.syms[i]).section() matches Some(s) ==> s < x.isecs.len()) by {
            assert(start.sym_ok(start.symtab.syms[i]));
        }
    }
    move_symbols(&mut x.symtab.syms, &x.isecs);
    proof {
        assert forall|i: int| 0 <= i < start.isecs.len() implies crate::inputs::same_part(
            start.isecs[i],
            #[trigger] x.isecs[i],
        ) && (x.isecs[i].replacement == NO_REPLACEMENT || x.isecs[i].replacement
            < x.isecs.len()) by {
            assert(x.isecs@[i] == merged_at(start, i, start.isecs.len() as int));
        }
        crate::inputs::lemma_wf_grown(start, *x);
    }
}

/// After the merge no two live literals that stay have the same type and
/// contents, and a merged-away one redirects to one of the same type and
/// contents.
pub proof fn lemma_literals_unique(x: Inputs, i: int)
    requires
        x.wf(),
        0 <= i < x.isecs.len(),
        literal_key(x, i) is Some,
    ensures
        ({
            let w = merged(x)[i].replacement;
            if w == NO_REPLACEMENT {
                forall|j: int| 0 <= j < i ==> #[trigger] literal_key(x, j) != literal_key(x, i)
            } else {
                &&& w < i
                &&& literal_key(x, w as int) == literal_key(x, i)
                &&& x.isecs[w as int].data@ == x.isecs[i].data@
                &&& x.header(x.isecs[w as int]).kind() == x.header(x.isecs[i]).kind()
                &&& merged(x)[w as int].replacement == NO_REPLACEMENT
            }
        }),
{
    let key = literal_key(x, i)->0;
    lemma_first_copy(x, key, 0, i);
    let first = first_copy(x, key, 0);
    if first < i {
        let a = x.header(x.isecs[first]).kind();
        let b = x.header(x.isecs[i]).kind();
        let da = x.isecs[first].data@;
        let db = x.isecs[i].data@;
        bytes::lemma_le32_round_trip(a);
        bytes::lemma_le32_round_trip(b);
        let sa = bytes::le32(a) + da;
        let sb = bytes::le32(b) + db;
        assert(sa == sb);
        assert(bytes::le32(a) =~= sa.take(4));
        assert(bytes::le32(b) =~= sb.take(4));
        assert(da =~= sa.skip(4));
        assert(db =~= sb.skip(4));
    } else {
        assert forall|j: int| 0 <= j < i implies #[trigger] literal_key(x, j) != literal_key(x, i) by {
            if literal_key(x, j) == Some(key) {
                lemma_first_copy(x, key, 0, j);
            }
        }
    }
}

} // verus!
