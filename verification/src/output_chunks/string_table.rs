//! The string table of the output symbol table.
//!
//! Names are spread over shards, each shard lays its distinct names out as
//! one blob, and the blobs stand one behind the other. Entries of one symbol
//! share one string.
use crate::macho::NList;
use crate::symbol::hash_key;
use crate::util::bytes;
use vstd::prelude::*;

verus! {

/// A symbol table entry that still needs its name placed.
#[derive(Debug)]
pub struct Named {
    /// Empty for an entry with a fixed string offset.
    pub name: Vec<u8>,
    pub ent: NList,
    /// The symbol that the entry's value comes from.
    pub sym: Option<u32>,
}

/// A named entry, as mathematical values.
#[verifier::ext_equal]
pub struct NamedView {
    pub name: Seq<u8>,
    pub ent: NList,
    pub sym: Option<u32>,
}

impl View for Named {
    type V = NamedView;

    open spec fn view(&self) -> NamedView {
        NamedView { name: self.name@, ent: self.ent, sym: self.sym }
    }
}

/// A list of named entries.
pub open spec fn named_views(v: Seq<Named>) -> Seq<NamedView> {
    v.map_values(|e: Named| e@)
}

/// The number of shards.
pub const STRING_SHARDS: usize = 64;

/// The multiplier that spreads symbol indices.
pub const FIB: u64 = 0x9E37_79B9_7F4A_7C15;

/// The length of the table's fixed start: a space, the empty string's NUL,
/// and the placeholder "-" with its NUL.
pub const STRTAB_PREFIX: u32 = 4;

/// The last bytes of a name, at most 16.
pub open spec fn name_tail(name: Seq<u8>) -> Seq<u8> {
    if name.len() <= 16 {
        name
    } else {
        name.skip(name.len() - 16)
    }
}

/// The shard of an entry: by its symbol, or by the hash of its name's tail.
pub open spec fn string_shard(e: NamedView) -> int {
    match e.sym {
        Some(id) => (id * FIB) % 0x1_0000_0000_0000_0000 % 64,
        None => crate::symbol::xxh3(name_tail(e.name)) as int % 64,
    }
}

fn find_string_shard(e: &Named) -> (r: usize)
    ensures
        r == string_shard(e@),
        r < STRING_SHARDS,
{
    match e.sym {
        Some(id) => {
            let wide: u128 = id as u128 * FIB as u128;
            (wide % 0x1_0000_0000_0000_0000 % 64) as usize
        },
        None => {
            let n: usize = e.name.len();
            let from: usize = if n <= 16 {
                0
            } else {
                n - 16
            };
            let tail: Vec<u8> = bytes::copy_range(e.name.as_slice(), from, n);
            assert(tail@ =~= name_tail(e.name@));
            (hash_key(tail.as_slice()) % 64) as usize
        },
    }
}

/// The named entries of a shard among the first `n`.
pub open spec fn shard_to(es: Seq<NamedView>, s: int, n: int) -> Seq<usize>
    decreases n,
{
    if n <= 0 {
        Seq::empty()
    } else {
        let before = shard_to(es, s, n - 1);
        if es[n - 1].name.len() > 0 && string_shard(es[n - 1]) == s {
            before.push((n - 1) as usize)
        } else {
            before
        }
    }
}

/// The named entries of the first `s` shards, shard by shard.
pub open spec fn shard_order(es: Seq<NamedView>, s: int) -> Seq<usize>
    decreases s,
{
    if s <= 0 {
        Seq::empty()
    } else {
        shard_order(es, s - 1) + shard_to(es, s - 1, es.len() as int)
    }
}

/// Placed strings.
#[verifier::ext_equal]
pub struct StringsView {
    /// The string offset of each entry.
    pub strx: Seq<u32>,
    /// The distinct strings and their offsets.
    pub uniques: Seq<(u32, Seq<u8>)>,
    /// Where the next string goes.
    pub end: int,
    /// The string offsets of the symbols seen so far.
    pub seen: Map<u32, u32>,
}

/// One more entry's name placed: where its symbol's name already is, or
/// behind all others. Names of different symbols are not compared. `None` when
/// offsets run out.
pub open spec fn place_name(es: Seq<NamedView>, p: StringsView, i: int) -> Option<StringsView> {
    let e = es[i];
    if e.sym is Some && p.seen.contains_key(e.sym->0) {
        Some(StringsView { strx: p.strx.update(i, p.seen[e.sym->0]), ..p })
    } else if p.end + e.name.len() + 1 > u32::MAX {
        None
    } else {
        Some(
            StringsView {
                strx: p.strx.update(i, p.end as u32),
                uniques: p.uniques.push((p.end as u32, e.name)),
                end: p.end + e.name.len() + 1,
                seen: match e.sym {
                    Some(id) => p.seen.insert(id, p.end as u32),
                    None => p.seen,
                },
            },
        )
    }
}

/// The first `k` entries of an order placed.
pub open spec fn names_to(es: Seq<NamedView>, order: Seq<usize>, k: int) -> Option<StringsView>
    decreases k,
{
    if k <= 0 {
        Some(
            StringsView {
                strx: es.map_values(|e: NamedView| e.ent.n_strx),
                uniques: Seq::empty(),
                end: STRTAB_PREFIX as int,
                seen: Map::empty(),
            },
        )
    } else {
        match names_to(es, order, k - 1) {
            None => None,
            Some(p) => place_name(es, p, order[k - 1] as int),
        }
    }
}

/// All names placed.
pub open spec fn placed_names(es: Seq<NamedView>) -> Option<StringsView> {
    let order = shard_order(es, 64);
    names_to(es, order, order.len() as int)
}

/// The distinct strings with their offsets.
pub open spec fn unique_views(v: Seq<(u32, Vec<u8>)>) -> Seq<(u32, Seq<u8>)> {
    v.map_values(|t: (u32, Vec<u8>)| (t.0, t.1@))
}

/// The entries with their string offsets.
pub open spec fn stamped(es: Seq<NamedView>, strx: Seq<u32>) -> Seq<(NList, Option<u32>)> {
    Seq::new(es.len(), |i: int| (NList { n_strx: strx[i], ..es[i].ent }, es[i].sym))
}

proof fn lemma_shard_to(es: Seq<NamedView>, s: int, n: int)
    requires
        n <= es.len(),
        es.len() <= usize::MAX,
    ensures
        forall|k: int|
            0 <= k < shard_to(es, s, n).len() ==> {
                let i = #[trigger] shard_to(es, s, n)[k];
                &&& i < n
                &&& es[i as int].name.len() > 0
                &&& string_shard(es[i as int]) == s
            },
        forall|i: int|
            0 <= i < n && (#[trigger] es[i]).name.len() > 0 && string_shard(es[i]) == s
                ==> exists|k: int|
                0 <= k < shard_to(es, s, n).len() && #[trigger] shard_to(es, s, n)[k] == i,
    decreases n,
{
    if n > 0 {
        lemma_shard_to(es, s, n - 1);
        let a = shard_to(es, s, n - 1);
        let b = shard_to(es, s, n);
        assert forall|i: int|
            0 <= i < n && (#[trigger] es[i]).name.len() > 0 && string_shard(es[i])
                == s implies exists|k: int| 0 <= k < b.len() && #[trigger] b[k] == i by {
            if i < n - 1 {
                let k = choose|k: int| 0 <= k < a.len() && #[trigger] a[k] == i;
                assert(b[k] == i);
            } else {
                assert(b[b.len() - 1] == i);
            }
        }
    }
}

proof fn lemma_shard_order(es: Seq<NamedView>, s: int)
    requires
        es.len() <= usize::MAX,
    ensures
        forall|k: int|
            0 <= k < shard_order(es, s).len() ==> {
                let i = #[trigger] shard_order(es, s)[k];
                &&& i < es.len()
                &&& es[i as int].name.len() > 0
            },
        forall|i: int|
            0 <= i < es.len() && (#[trigger] es[i]).name.len() > 0 && string_shard(es[i]) < s
                ==> exists|k: int|
                0 <= k < shard_order(es, s).len() && #[trigger] shard_order(es, s)[k] == i,
    decreases s,
{
    if s > 0 {
        lemma_shard_order(es, s - 1);
        lemma_shard_to(es, s - 1, es.len() as int);
        let a = shard_order(es, s - 1);
        let t = shard_to(es, s - 1, es.len() as int);
        let b = shard_order(es, s);
        assert(b == a + t);
        assert forall|i: int|
            0 <= i < es.len() && (#[trigger] es[i]).name.len() > 0 && string_shard(es[i])
                < s implies exists|k: int| 0 <= k < b.len() && #[trigger] b[k] == i by {
            if string_shard(es[i]) < s - 1 {
                let k = choose|k: int| 0 <= k < a.len() && #[trigger] a[k] == i;
                assert(b[k] == i);
            } else {
                let k = choose|k: int| 0 <= k < t.len() && #[trigger] t[k] == i;
                assert(b[a.len() + k] == i);
            }
        }
    } else {
        assert forall|i: int|
            0 <= i < es.len() && (#[trigger] es[i]).name.len() > 0 implies string_shard(es[i])
            >= 0 by {}
    }
}

/// Lists the named entries shard by shard.
fn list_by_shard(es: &Vec<Named>) -> (r: Vec<usize>)
    ensures
        r@ == shard_order(named_views(es@), 64),
{
    let ghost v = named_views(es@);
    let mut bins: Vec<Vec<usize>> = Vec::new();
    while bins.len() < STRING_SHARDS
        invariant
            bins.len() <= 64,
            forall|s: int| 0 <= s < bins.len() ==> (#[trigger] bins[s])@ == Seq::<usize>::empty(),
        decreases 64 - bins.len(),
    {
        bins.push(Vec::new());
    }
    let mut n: usize = 0;
    while n < es.len()
        invariant
            n <= es.len(),
            v == named_views(es@),
            bins.len() == 64,
            forall|s: int| 0 <= s < 64 ==> (#[trigger] bins[s])@ == shard_to(v, s, n as int),
        decreases es.len() - n,
    {
        assert(v[n as int] == es[n as int]@);
        if es[n].name.len() > 0 {
            let s: usize = find_string_shard(&es[n]);
            let ghost before = bins@;
            bins[s].push(n);
            assert forall|t: int| 0 <= t < 64 implies (#[trigger] bins[t])@ == shard_to(
                v,
                t,
                n + 1,
            ) by {
                assert(before[t]@ == shard_to(v, t, n as int));
            }
        } else {
            assert forall|t: int| 0 <= t < 64 implies (#[trigger] bins[t])@ == shard_to(
                v,
                t,
                n + 1,
            ) by {
                assert(bins[t]@ == shard_to(v, t, n as int));
            }
        }
        n += 1;
    }
    let mut r: Vec<usize> = Vec::new();
    let mut s: usize = 0;
    while s < 64
        invariant
            s <= 64,
            v == named_views(es@),
            v.len() == es.len(),
            bins.len() == 64,
            forall|t: int|
                0 <= t < 64 ==> (#[trigger] bins[t])@ == shard_to(v, t, es.len() as int),
            r@ == shard_order(v, s as int),
        decreases 64 - s,
    {
        let ghost before = r@;
        let mut k: usize = 0;
        while k < bins[s].len()
            invariant
                s < 64,
                bins.len() == 64,
                k <= bins[s as int].len(),
                r@ == before + bins[s as int]@.take(k as int),
            decreases bins[s as int].len() - k,
        {
            let i: usize = bins[s][k];
            r.push(i);
            k += 1;
            assert(before + bins[s as int]@.take(k as int) =~= (before + bins[s as int]@.take(
                k - 1,
            )).push(i));
        }
        assert(bins[s as int]@.take(k as int) =~= bins[s as int]@);
        s += 1;
    }
    r
}

/// Placed strings of the output symbol table.
#[derive(Debug)]
pub struct Strings {
    /// The entries with their string offsets.
    pub entries: Vec<(NList, Option<u32>)>,
    /// The distinct strings and their offsets.
    pub uniques: Vec<(u32, Vec<u8>)>,
    /// The end of the last string.
    pub end: u32,
}

/// The offsets of seen symbols, `u32::MAX` for the others.
spec fn table_of(table: Seq<u32>, seen: Map<u32, u32>) -> bool {
    &&& forall|id: u32|
        id < table.len() ==> (#[trigger] table[id as int] != u32::MAX <==> seen.contains_key(id))
    &&& forall|id: u32|
        id < table.len() && seen.contains_key(id) ==> #[trigger] table[id as int] == seen[id]
}

proof fn lemma_names_none(es: Seq<NamedView>, order: Seq<usize>, a: int, b: int)
    requires
        a <= b,
        names_to(es, order, a) is None,
    ensures
        names_to(es, order, b) is None,
    decreases b - a,
{
    if a < b && b > 0 {
        lemma_names_none(es, order, a, b - 1);
    }
}

/// Places the names of all entries. `None` when they do not fit in 32-bit
/// offsets.
pub fn place_names(es: &Vec<Named>, nsyms: usize) -> (r: Option<Strings>)
    requires
        forall|i: int|
            0 <= i < es.len() ==> ((#[trigger] es[i]).sym matches Some(id) ==> id < nsyms),
    ensures
        match r {
            Some(s) => placed_names(named_views(es@)) matches Some(p) && unique_views(s.uniques@)
                == p.uniques && s.end == p.end && s.entries@ == stamped(
                named_views(es@),
                p.strx,
            ),
            None => placed_names(named_views(es@)) is None,
        },
{
    let ghost v = named_views(es@);
    let order: Vec<usize> = list_by_shard(es);
    proof {
        assert(es.len() <= usize::MAX);
        lemma_shard_order(v, 64);
    }
    let mut table: Vec<u32> = Vec::new();
    while table.len() < nsyms
        invariant
            table.len() <= nsyms,
            forall|i: int| 0 <= i < table.len() ==> #[trigger] table[i] == u32::MAX,
        decreases nsyms - table.len(),
    {
        table.push(u32::MAX);
    }
    let mut entries: Vec<(NList, Option<u32>)> = Vec::new();
    while entries.len() < es.len()
        invariant
            entries.len() <= es.len(),
            forall|i: int|
                0 <= i < entries.len() ==> #[trigger] entries[i] == (es[i].ent, es[i].sym),
        decreases es.len() - entries.len(),
    {
        let i: usize = entries.len();
        entries.push((es[i].ent, es[i].sym));
    }
    let mut uniques: Vec<(u32, Vec<u8>)> = Vec::new();
    let mut end: u32 = STRTAB_PREFIX;
    let mut k: usize = 0;
    let ghost mut p = names_to(v, order@, 0)->0;
    proof {
        assert(entries@ =~= stamped(v, p.strx));
        assert(unique_views(uniques@) =~= p.uniques);
    }
    while k < order.len()
        invariant
            k <= order.len(),
            v == named_views(es@),
            v.len() == es.len(),
            order@ == shard_order(v, 64),
            forall|j: int| 0 <= j < order.len() ==> (#[trigger] order[j]) < es.len(),
            forall|i: int|
                0 <= i < es.len() ==> ((#[trigger] es[i]).sym matches Some(id) ==> id < nsyms),
            table.len() == nsyms,
            names_to(v, order@, k as int) == Some(p),
            p.strx.len() == v.len(),
            table_of(table@, p.seen),
            entries@ == stamped(v, p.strx),
            unique_views(uniques@) == p.uniques,
            end == p.end,
        decreases order.len() - k,
    {
        let i: usize = order[k];
        assert(v[i as int] == es[i as int]@);
        let e: &Named = &es[i];
        let known: u32 = match e.sym {
            Some(id) => table[id as usize],
            None => u32::MAX,
        };
        let ghost q = place_name(v, p, i as int);
        let mut ent: (NList, Option<u32>) = entries[i];
        if known != u32::MAX {
            proof {
                assert(p.seen.contains_key(e.sym->0));
            }
            ent.0.n_strx = known;
            entries.set(i, ent);
        } else {
            let n: usize = e.name.len();
            if n as u128 + end as u128 + 1 > u32::MAX as u128 {
                proof {
                    assert(q is None);
                    lemma_names_none(v, order@, k + 1, order.len() as int);
                }
                return None;
            }
            ent.0.n_strx = end;
            entries.set(i, ent);
            if let Some(id) = e.sym {
                let ghost before = table@;
                table.set(id as usize, end);
                proof {
                    let seen = p.seen.insert(id, end);
                    assert forall|j: u32| j < table.len() implies (#[trigger] table@[j as int]
                        != u32::MAX <==> seen.contains_key(j)) by {
                        assert(before[j as int] != u32::MAX <==> p.seen.contains_key(j));
                    }
                    assert forall|j: u32|
                        j < table.len() && seen.contains_key(j) implies #[trigger] table@[j as int]
                        == seen[j] by {
                        if j != id {
                            assert(p.seen.contains_key(j));
                            assert(before[j as int] == p.seen[j]);
                        }
                    }
                }
            }
            let ghost ub = uniques@;
            uniques.push((end, bytes::to_vec(e.name.as_slice())));
            assert(unique_views(uniques@) =~= unique_views(ub).push((end, e.name@)));
            end = end + n as u32 + 1;
        }
        proof {
            p = q->0;
            assert(entries@ =~= stamped(v, p.strx));
        }
        k += 1;
    }
    Some(Strings { entries, uniques, end })
}

/// The strings one behind the other, each with a NUL.
pub open spec fn blobs(uniques: Seq<(u32, Seq<u8>)>) -> Seq<u8>
    decreases uniques.len(),
{
    if uniques.len() == 0 {
        Seq::empty()
    } else {
        blobs(uniques.drop_last()) + uniques.last().1.push(0)
    }
}

/// The table's bytes: its fixed start, the strings, and zeros up to a
/// multiple of eight bytes.
pub open spec fn string_table(uniques: Seq<(u32, Seq<u8>)>) -> Seq<u8> {
    bytes::padded8(seq![0x20u8, 0u8, 0x2du8, 0u8] + blobs(uniques))
}

/// Writes the table.
pub fn encode_string_table(uniques: &Vec<(u32, Vec<u8>)>) -> (r: Vec<u8>)
    ensures
        r@ == string_table(unique_views(uniques@)),
{
    let ghost v = unique_views(uniques@);
    let mut buf: Vec<u8> = Vec::new();
    buf.push(0x20);
    buf.push(0);
    buf.push(0x2d);
    buf.push(0);
    let ghost start = seq![0x20u8, 0u8, 0x2du8, 0u8];
    assert(v.take(0) =~= Seq::empty());
    assert(buf@ =~= start + blobs(v.take(0)));
    let mut i: usize = 0;
    while i < uniques.len()
        invariant
            i <= uniques.len(),
            v == unique_views(uniques@),
            buf@ == start + blobs(v.take(i as int)),
        decreases uniques.len() - i,
    {
        assert(v[i as int] == (uniques[i as int].0, uniques[i as int].1@));
        bytes::append(&mut buf, uniques[i].1.as_slice());
        buf.push(0);
        proof {
            let t = v.take(i + 1);
            assert(t.drop_last() =~= v.take(i as int));
            assert(buf@ =~= start + (blobs(v.take(i as int)) + t.last().1.push(0)));
        }
        i += 1;
    }
    assert(v.take(i as int) =~= v);
    bytes::pad8(&mut buf);
    buf
}

/// True when entries of one symbol have one name.
pub open spec fn one_name_each(es: Seq<NamedView>) -> bool {
    forall|i: int, j: int|
        0 <= i < es.len() && 0 <= j < es.len() && (#[trigger] es[i]).sym is Some && (
        #[trigger] es[j]).sym == es[i].sym ==> es[i].name == es[j].name
}

/// True when a string stands at an offset.
#[verifier::opaque]
spec fn holds(uniques: Seq<(u32, Seq<u8>)>, strx: u32, name: Seq<u8>) -> bool {
    exists|u: int| 0 <= u < uniques.len() && #[trigger] uniques[u] == (strx, name)
}

/// True when a seen symbol's offset is that of the name of its entries.
#[verifier::opaque]
spec fn seen_at(es: Seq<NamedView>, p: StringsView, id: u32) -> bool {
    exists|i: int|
        0 <= i < es.len() && (#[trigger] es[i]).sym == Some(id) && holds(
            p.uniques,
            p.seen[id],
            es[i].name,
        )
}

/// What holds while names are placed: strings stand at their offsets, and
/// each placed entry's offset is that of its name.
spec fn names_stand(es: Seq<NamedView>, order: Seq<usize>, k: int, p: StringsView) -> bool {
    &&& p.strx.len() == es.len()
    &&& p.end == 4 + blobs(p.uniques).len()
    &&& forall|u: int|
        0 <= u < p.uniques.len() ==> (#[trigger] p.uniques[u]).0 == 4 + blobs(
            p.uniques.take(u),
        ).len()
    &&& forall|j: int|
        0 <= j < k ==> holds(
            p.uniques,
            p.strx[#[trigger] order[j] as int],
            es[order[j] as int].name,
        )
    &&& forall|id: u32| #[trigger] p.seen.contains_key(id) ==> seen_at(es, p, id)
}

proof fn lemma_holds_push(uniques: Seq<(u32, Seq<u8>)>, x: (u32, Seq<u8>), strx: u32, name: Seq<u8>)
    ensures
        holds(uniques, strx, name) ==> holds(uniques.push(x), strx, name),
        holds(uniques.push(x), x.0, x.1),
{
    reveal(holds);
    let v = uniques.push(x);
    assert(v[uniques.len() as int] == x);
    if holds(uniques, strx, name) {
        let u = choose|u: int| 0 <= u < uniques.len() && #[trigger] uniques[u] == (strx, name);
        assert(v[u] == (strx, name));
    }
}

/// The string of a seen symbol is the name of any of its entries.
proof fn lemma_seen_name(es: Seq<NamedView>, p: StringsView, id: u32, at: int)
    requires
        one_name_each(es),
        0 <= at < es.len(),
        es[at].sym == Some(id),
        seen_at(es, p, id),
    ensures
        holds(p.uniques, p.seen[id], es[at].name),
{
    reveal(seen_at);
    let i = choose|i: int|
        0 <= i < es.len() && (#[trigger] es[i]).sym == Some(id) && holds(
            p.uniques,
            p.seen[id],
            es[i].name,
        );
    assert(es[i].name == es[at].name);
}

/// A seen symbol stays seen when a string is added.
proof fn lemma_seen_push(es: Seq<NamedView>, p: StringsView, q: StringsView, id: u32, x: (u32, Seq<u8>))
    requires
        seen_at(es, p, id),
        q.uniques == p.uniques.push(x),
        q.seen[id] == p.seen[id],
    ensures
        seen_at(es, q, id),
{
    reveal(seen_at);
    let i = choose|i: int|
        0 <= i < es.len() && (#[trigger] es[i]).sym == Some(id) && holds(
            p.uniques,
            p.seen[id],
            es[i].name,
        );
    lemma_holds_push(p.uniques, x, p.seen[id], es[i].name);
}

proof fn lemma_name_known(es: Seq<NamedView>, order: Seq<usize>, k: int, p: StringsView)
    requires
        0 < k <= order.len(),
        forall|j: int| 0 <= j < order.len() ==> (#[trigger] order[j]) < es.len(),
        forall|a: int, b: int|
            0 <= a < b < order.len() ==> #[trigger] order[a] != #[trigger] order[b],
        one_name_each(es),
        names_stand(es, order, k - 1, p),
        es[order[k - 1] as int].sym is Some,
        p.seen.contains_key(es[order[k - 1] as int].sym->0),
    ensures
        names_stand(es, order, k, place_name(es, p, order[k - 1] as int)->0),
{
    let at = order[k - 1] as int;
    let id = es[at].sym->0;
    let q = place_name(es, p, at)->0;
    lemma_seen_name(es, p, id, at);
    assert forall|j: int| 0 <= j < k implies holds(
        q.uniques,
        q.strx[#[trigger] order[j] as int],
        es[order[j] as int].name,
    ) by {
        if j < k - 1 {
            assert(order[j] != order[k - 1]);
            assert(holds(p.uniques, p.strx[order[j] as int], es[order[j] as int].name));
        }
    }
    assert forall|other: u32| #[trigger] q.seen.contains_key(other) implies seen_at(
        es,
        q,
        other,
    ) by {
        assert(p.seen.contains_key(other));
        reveal(seen_at);
    }
}

proof fn lemma_name_added(es: Seq<NamedView>, order: Seq<usize>, k: int, p: StringsView)
    requires
        0 < k <= order.len(),
        forall|j: int| 0 <= j < order.len() ==> (#[trigger] order[j]) < es.len(),
        forall|a: int, b: int|
            0 <= a < b < order.len() ==> #[trigger] order[a] != #[trigger] order[b],
        names_stand(es, order, k - 1, p),
        !(es[order[k - 1] as int].sym is Some && p.seen.contains_key(
            es[order[k - 1] as int].sym->0,
        )),
        place_name(es, p, order[k - 1] as int) is Some,
    ensures
        names_stand(es, order, k, place_name(es, p, order[k - 1] as int)->0),
{
    let at = order[k - 1] as int;
    let e = es[at];
    let q = place_name(es, p, at)->0;
    let x = (p.end as u32, e.name);
    let last = p.uniques.len() as int;
    assert(q.uniques == p.uniques.push(x));
    assert(q.uniques.drop_last() =~= p.uniques);
    assert(q.uniques.last() == x);
    lemma_holds_push(p.uniques, x, 0, e.name);
    assert forall|u: int| 0 <= u < q.uniques.len() implies (#[trigger] q.uniques[u]).0 == 4
        + blobs(q.uniques.take(u)).len() by {
        if u < last {
            assert(q.uniques[u] == p.uniques[u]);
            assert(q.uniques.take(u) =~= p.uniques.take(u));
        } else {
            assert(q.uniques.take(u) =~= p.uniques);
        }
    }
    assert forall|j: int| 0 <= j < k implies holds(
        q.uniques,
        q.strx[#[trigger] order[j] as int],
        es[order[j] as int].name,
    ) by {
        if j < k - 1 {
            let i = order[j] as int;
            assert(order[j] != order[k - 1]);
            assert(holds(p.uniques, p.strx[i], es[i].name));
            lemma_holds_push(p.uniques, x, p.strx[i], es[i].name);
        }
    }
    assert forall|id: u32| #[trigger] q.seen.contains_key(id) implies seen_at(es, q, id) by {
        if e.sym == Some(id) {
            reveal(seen_at);
            assert(es[at].sym == Some(id));
        } else {
            assert(p.seen.contains_key(id));
            lemma_seen_push(es, p, q, id, x);
        }
    }
}

proof fn lemma_names_stand(es: Seq<NamedView>, order: Seq<usize>, k: int)
    requires
        0 <= k <= order.len(),
        forall|j: int| 0 <= j < order.len() ==> (#[trigger] order[j]) < es.len(),
        forall|a: int, b: int|
            0 <= a < b < order.len() ==> #[trigger] order[a] != #[trigger] order[b],
        one_name_each(es),
        names_to(es, order, k) is Some,
    ensures
        names_stand(es, order, k, names_to(es, order, k)->0),
    decreases k,
{
    if k > 0 {
        lemma_names_stand(es, order, k - 1);
        let p = names_to(es, order, k - 1)->0;
        let e = es[order[k - 1] as int];
        if e.sym is Some && p.seen.contains_key(e.sym->0) {
            lemma_name_known(es, order, k, p);
        } else {
            lemma_name_added(es, order, k, p);
        }
    }
}

proof fn lemma_shard_distinct(es: Seq<NamedView>, s: int, n: int)
    requires
        n <= es.len(),
        es.len() <= usize::MAX,
    ensures
        forall|a: int, b: int|
            0 <= a < b < shard_to(es, s, n).len() ==> #[trigger] shard_to(es, s, n)[a]
                != #[trigger] shard_to(es, s, n)[b],
    decreases n,
{
    if n > 0 {
        lemma_shard_distinct(es, s, n - 1);
        lemma_shard_to(es, s, n - 1);
    }
}

proof fn lemma_order_distinct(es: Seq<NamedView>, s: int)
    requires
        es.len() <= usize::MAX,
    ensures
        forall|a: int, b: int|
            0 <= a < b < shard_order(es, s).len() ==> #[trigger] shard_order(es, s)[a]
                != #[trigger] shard_order(es, s)[b],
        forall|a: int|
            0 <= a < shard_order(es, s).len() ==> string_shard(
                es[#[trigger] shard_order(es, s)[a] as int],
            ) < s,
    decreases s,
{
    if s > 0 {
        lemma_order_distinct(es, s - 1);
        lemma_shard_distinct(es, s - 1, es.len() as int);
        lemma_shard_to(es, s - 1, es.len() as int);
        let a = shard_order(es, s - 1);
        let t = shard_to(es, s - 1, es.len() as int);
        let b = shard_order(es, s);
        assert(b == a + t);
        assert forall|i: int, j: int| 0 <= i < j < b.len() implies #[trigger] b[i]
            != #[trigger] b[j] by {
            if j < a.len() {
                assert(a[i] != a[j]);
            } else if i >= a.len() {
                assert(t[i - a.len()] != t[j - a.len()]);
            } else {
                assert(string_shard(es[a[i] as int]) < s - 1);
                assert(string_shard(es[t[j - a.len()] as int]) == s - 1);
            }
        }
        assert forall|i: int| 0 <= i < b.len() implies string_shard(
            es[#[trigger] b[i] as int],
        ) < s by {
            if i < a.len() {
                assert(string_shard(es[a[i] as int]) < s - 1);
            } else {
                assert(string_shard(es[t[i - a.len()] as int]) == s - 1);
            }
        }
    }
}

/// A string stands behind those before it, and a NUL behind it.
pub proof fn lemma_blob_at(uniques: Seq<(u32, Seq<u8>)>, u: int)
    requires
        0 <= u < uniques.len(),
    ensures
        ({
            let from = blobs(uniques.take(u)).len() as int;
            let name = uniques[u].1;
            &&& from + name.len() < blobs(uniques).len()
            &&& blobs(uniques).subrange(from, from + name.len()) == name
            &&& blobs(uniques)[from + name.len()] == 0
        }),
    decreases uniques.len(),
{
    let rest = uniques.drop_last();
    let name = uniques[u].1;
    if u == uniques.len() - 1 {
        assert(uniques.take(u) =~= rest);
        let from = blobs(rest).len() as int;
        assert(blobs(uniques).subrange(from, from + name.len()) =~= name);
    } else {
        lemma_blob_at(rest, u);
        assert(rest.take(u) =~= uniques.take(u));
        let from = blobs(rest.take(u)).len() as int;
        assert(rest[u] == uniques[u]);
        assert(blobs(uniques).subrange(from, from + name.len()) =~= blobs(rest).subrange(
            from,
            from + name.len(),
        ));
    }
}

/// The first NUL is found.
pub proof fn lemma_nul_at(s: Seq<u8>, from: int, end: int)
    requires
        0 <= from <= end < s.len(),
        s[end] == 0,
        forall|i: int| from <= i < end ==> (#[trigger] s[i]) != 0,
    ensures
        bytes::index_of_byte(s, 0, from) == end,
    decreases end - from,
{
    if from < end {
        lemma_nul_at(s, from + 1, end);
    }
}

/// A string without a NUL is read back at its offset.
proof fn lemma_string_at(uniques: Seq<(u32, Seq<u8>)>, u: int)
    requires
        0 <= u < uniques.len(),
        uniques[u].0 == 4 + blobs(uniques.take(u)).len(),
        forall|k: int| 0 <= k < uniques[u].1.len() ==> (#[trigger] uniques[u].1[k]) != 0,
    ensures
        crate::input_files::strtab::name_at(string_table(uniques), uniques[u].0) == uniques[u].1,
{
    lemma_blob_at(uniques, u);
    let name = uniques[u].1;
    let b = blobs(uniques);
    let from = blobs(uniques.take(u)).len() as int;
    let start = seq![0x20u8, 0u8, 0x2du8, 0u8];
    let t = string_table(uniques);
    assert(t.len() >= 4 + b.len());
    let tail = t.skip(4 + from);
    assert forall|j: int| 0 <= j < name.len() implies #[trigger] tail[j] == name[j] by {
        assert(b.subrange(from, from + name.len())[j] == b[from + j]);
        assert(t[4 + (from + j)] == b[from + j]);
    }
    assert(t[4 + (from + name.len())] == b[from + name.len()]);
    assert(tail[name.len() as int] == 0);
    assert forall|j: int| 0 <= j < name.len() implies (#[trigger] tail[j]) != 0 by {
        assert(name[j] != 0);
    }
    lemma_nul_at(tail, 0, name.len() as int);
    assert(bytes::until_nul(tail) =~= name);
}

/// Reading the string table at an entry's offset gives the entry's name
/// back, for every entry with a name that holds no NUL.
pub proof fn lemma_names_found(es: Seq<NamedView>, i: int)
    requires
        es.len() <= usize::MAX,
        one_name_each(es),
        placed_names(es) is Some,
        0 <= i < es.len(),
        es[i].name.len() > 0,
        forall|k: int| 0 <= k < es[i].name.len() ==> (#[trigger] es[i].name[k]) != 0,
    ensures
        crate::input_files::strtab::name_at(
            string_table(placed_names(es)->0.uniques),
            placed_names(es)->0.strx[i],
        ) == es[i].name,
{
    let order = shard_order(es, 64);
    lemma_shard_order(es, 64);
    lemma_order_distinct(es, 64);
    lemma_names_stand(es, order, order.len() as int);
    let p = placed_names(es)->0;
    let name = es[i].name;
    assert(string_shard(es[i]) < 64);
    let k = choose|k: int| 0 <= k < order.len() && #[trigger] order[k] == i;
    assert(holds(p.uniques, p.strx[order[k] as int], es[order[k] as int].name));
    reveal(holds);
    let u = choose|u: int|
        0 <= u < p.uniques.len() && #[trigger] p.uniques[u] == (p.strx[i], name);
    lemma_string_at(p.uniques, u);
}

} // verus!
