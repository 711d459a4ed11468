//! Looking names up in an export trie, and what a lookup finds.
use crate::macho::consts::EXPORT_SYMBOL_FLAGS_REEXPORT;
use crate::output_chunks::export_trie::{ExportView, NodeView};
use crate::util::bytes;
use vstd::prelude::*;

verus! {

/// What the sorted names from `lo` to `hi` say of `name`.
pub open spec fn exported_as(
    names: Seq<(Seq<u8>, ExportView)>,
    lo: int,
    hi: int,
    name: Seq<u8>,
) -> Option<ExportView>
    decreases hi - lo,
{
    if lo >= hi {
        None
    } else if names[lo].0 == name {
        Some(names[lo].1)
    } else {
        exported_as(names, lo + 1, hi, name)
    }
}

/// The first edge from `k` on whose label `name` continues with at `depth`.
pub open spec fn edge_for(labels: Seq<Seq<u8>>, name: Seq<u8>, depth: int, k: int) -> Option<int>
    decreases labels.len() - k,
{
    if k < 0 || k >= labels.len() {
        None
    } else if bytes::occurs_at(name, labels[k], depth) {
        Some(k)
    } else {
        edge_for(labels, name, depth, k + 1)
    }
}

/// What the trie says of `name`, from the node `i` on, which is reached by
/// the first `depth` bytes.
pub open spec fn lookup(nodes: Seq<NodeView>, i: int, name: Seq<u8>, depth: int) -> Option<
    ExportView,
>
    decreases name.len() - depth,
{
    if depth >= name.len() {
        nodes[i].export
    } else {
        match edge_for(nodes[i].labels, name, depth, 0) {
            None => None,
            Some(k) => if nodes[i].labels[k].len() == 0 || depth + nodes[i].labels[k].len()
                > name.len() {
                None
            } else {
                lookup(nodes, nodes[i].kids[k], name, depth + nodes[i].labels[k].len())
            },
        }
    }
}

proof fn lemma_exported_skip(
    names: Seq<(Seq<u8>, ExportView)>,
    lo: int,
    m: int,
    hi: int,
    name: Seq<u8>,
)
    requires
        lo <= m <= hi,
        forall|i: int| lo <= i < m ==> (#[trigger] names[i]).0 != name,
    ensures
        exported_as(names, lo, hi, name) == exported_as(names, m, hi, name),
    decreases m - lo,
{
    if lo < m {
        lemma_exported_skip(names, lo + 1, m, hi, name);
    }
}

proof fn lemma_exported_cut(
    names: Seq<(Seq<u8>, ExportView)>,
    lo: int,
    m: int,
    hi: int,
    name: Seq<u8>,
)
    requires
        lo <= m <= hi,
        forall|i: int| m <= i < hi ==> (#[trigger] names[i]).0 != name,
    ensures
        exported_as(names, lo, hi, name) == exported_as(names, lo, m, name),
    decreases hi - lo,
{
    if lo < m {
        lemma_exported_cut(names, lo + 1, m, hi, name);
    } else if lo < hi {
        lemma_exported_cut(names, lo + 1, lo + 1, hi, name);
    }
}

proof fn lemma_edge_for_rest(
    first: Seq<u8>,
    rest: Seq<Seq<u8>>,
    name: Seq<u8>,
    depth: int,
    k: int,
)
    requires
        k >= 0,
    ensures
        edge_for(seq![first] + rest, name, depth, k + 1) == match edge_for(rest, name, depth, k) {
            Some(j) => Some(j + 1),
            None => None::<int>,
        },
    decreases rest.len() - k,
{
    if k < rest.len() {
        assert((seq![first] + rest)[k + 1] == rest[k]);
        lemma_edge_for_rest(first, rest, name, depth, k + 1);
    }
}

/// Longer names are different names.
proof fn lemma_group_bytes(
    names: Seq<(Seq<u8>, ExportView)>,
    lo: int,
    g: int,
    hi: int,
    depth: int,
)
    requires
        super::export_trie::names_increase(names),
        super::export_trie::share(names, lo, hi, depth),
        0 <= depth,
        lo < g < hi,
        super::export_trie::byte_at(names[g].0, depth) != super::export_trie::byte_at(
            names[lo].0,
            depth,
        ),
    ensures
        forall|k: int|
            g <= k < hi ==> super::export_trie::byte_at((#[trigger] names[k]).0, depth)
                > super::export_trie::byte_at(names[lo].0, depth),
{
    super::export_trie::lemma_lex_byte(names[lo].0, names[g].0, depth);
    assert forall|k: int| g <= k < hi implies super::export_trie::byte_at(
        (#[trigger] names[k]).0,
        depth,
    ) > super::export_trie::byte_at(names[lo].0, depth) by {
        if k > g {
            super::export_trie::lemma_lex_byte(names[g].0, names[k].0, depth);
        }
    }
}

/// Looking a name up in the subtrie of some names finds what they say.
proof fn lemma_subtrie_finds(
    names: Seq<(Seq<u8>, ExportView)>,
    lo: int,
    hi: int,
    depth: int,
    base: int,
    all: Seq<NodeView>,
    name: Seq<u8>,
)
    requires
        super::export_trie::names_increase(names),
        super::export_trie::share(names, lo, hi, depth),
        lo < hi,
        0 <= depth <= name.len(),
        0 <= base,
        base + super::export_trie::subtrie(names, lo, hi, depth, base).len() <= all.len(),
        all.subrange(
            base,
            base + super::export_trie::subtrie(names, lo, hi, depth, base).len(),
        ) == super::export_trie::subtrie(names, lo, hi, depth, base),
        name.take(depth) == names[lo].0.take(depth),
    ensures
        lookup(all, base, name, depth) == exported_as(names, lo, hi, name),
    decreases hi - lo, names[lo].0.len() - depth, 1int,
{
    let t = super::export_trie::subtrie(names, lo, hi, depth, base);
    let ends = names[lo].0.len() == depth;
    let start = if ends {
        lo + 1
    } else {
        lo
    };
    let e = super::export_trie::edges(names, start, hi, depth, base + 1);
    assert(all.subrange(base, base + t.len())[0] == all[base]);
    assert(t[0] == all[base]);
    assert forall|k: int| start <= k < hi implies (#[trigger] names[k]).0.len() > depth by {
        if k > lo {
            super::export_trie::lemma_lex_byte(names[lo].0, names[k].0, depth);
        }
    }
    if name.len() == depth {
        if ends {
            assert(name.take(depth) =~= name);
            assert(names[lo].0.take(depth) =~= names[lo].0);
        } else {
            lemma_exported_skip(names, lo, hi, hi, name);
        }
    } else {
        lemma_exported_skip(names, lo, start, hi, name);
        assert(all.subrange(base + 1, base + 1 + e.below.len()) =~= e.below) by {
            assert forall|k: int| 0 <= k < e.below.len() implies all[base + 1 + k]
                == #[trigger] e.below[k] by {
                assert(all.subrange(base, base + t.len())[k + 1] == t[k + 1]);
                assert(t[k + 1] == e.below[k]);
            }
        }
        if start < hi {
            assert(names[start].0.take(depth) == names[lo].0.take(depth));
            lemma_edges_find(names, start, hi, depth, base + 1, all, name);
        } else {
            assert(e.labels =~= Seq::empty());
        }
        assert(all[base].labels == e.labels);
        assert(all[base].kids == e.kids);
        lemma_edge_for_range(e.labels, name, depth, 0);
    }
}

proof fn lemma_edges_find(
    names: Seq<(Seq<u8>, ExportView)>,
    lo: int,
    hi: int,
    depth: int,
    base: int,
    all: Seq<NodeView>,
    name: Seq<u8>,
)
    requires
        super::export_trie::names_increase(names),
        super::export_trie::share(names, lo, hi, depth),
        lo < hi,
        forall|k: int| lo <= k < hi ==> (#[trigger] names[k]).0.len() > depth,
        0 <= depth < name.len(),
        0 <= base,
        base + super::export_trie::edges(names, lo, hi, depth, base).below.len() <= all.len(),
        all.subrange(
            base,
            base + super::export_trie::edges(names, lo, hi, depth, base).below.len(),
        ) == super::export_trie::edges(names, lo, hi, depth, base).below,
        name.take(depth) == names[lo].0.take(depth),
    ensures
        match edge_for(
            super::export_trie::edges(names, lo, hi, depth, base).labels,
            name,
            depth,
            0,
        ) {
            Some(k) => {
                let e = super::export_trie::edges(names, lo, hi, depth, base);
                e.labels[k].len() > 0 && lookup(
                    all,
                    e.kids[k],
                    name,
                    depth + e.labels[k].len(),
                ) == exported_as(names, lo, hi, name)
            },
            None => exported_as(names, lo, hi, name) is None,
        },
    decreases hi - lo, names[lo].0.len() - depth, 0int,
{
    let e = super::export_trie::edges(names, lo, hi, depth, base);
    let g = super::export_trie::group_end(names, lo, lo + 1, hi, depth);
    super::export_trie::lemma_group_end(names, lo, lo + 1, hi, depth);
    super::export_trie::lemma_group_shares(names, lo, g, hi, depth);
    let end = super::export_trie::common_end(names[lo].0, names[g - 1].0, depth);
    let child = super::export_trie::subtrie(names, lo, g, end, base);
    let rest = super::export_trie::edges(names, g, hi, depth, base + child.len());
    let label = names[lo].0.subrange(depth, end);
    assert(e.labels == seq![label] + rest.labels);
    assert(e.kids == seq![base] + rest.kids);
    assert(e.below == child + rest.below);
    let here = all.subrange(base, base + e.below.len());
    assert(all.subrange(base, base + child.len()) =~= child) by {
        assert forall|k: int| 0 <= k < child.len() implies all[base + k] == #[trigger] child[k] by {
            assert(here[k] == e.below[k]);
        }
    }
    assert(all.subrange(base + child.len(), base + child.len() + rest.below.len()) =~= rest.below)
        by {
        assert forall|k: int| 0 <= k < rest.below.len() implies all[base + child.len() + k]
            == #[trigger] rest.below[k] by {
            assert(here[child.len() + k] == e.below[child.len() + k]);
        }
    }
    if g < hi {
        lemma_group_bytes(names, lo, g, hi, depth);
    }
    if bytes::occurs_at(name, label, depth) {
        assert(name.take(end) =~= names[lo].0.take(end)) by {
            assert forall|k: int| 0 <= k < end implies name[k] == names[lo].0[k] by {
                if k < depth {
                    assert(name.take(depth)[k] == name[k]);
                    assert(names[lo].0.take(depth)[k] == names[lo].0[k]);
                } else {
                    assert(name.subrange(depth, depth + label.len())[k - depth] == name[k]);
                    assert(label[k - depth] == names[lo].0[k]);
                }
            }
        }
        lemma_subtrie_finds(names, lo, g, end, base, all, name);
        assert forall|i: int| g <= i < hi implies (#[trigger] names[i]).0 != name by {
            assert(name.take(end)[depth] == name[depth]);
            assert(names[lo].0.take(end)[depth] == names[lo].0[depth]);
        }
        lemma_exported_cut(names, lo, g, hi, name);
        assert(e.labels[0] == label);
        assert(e.kids[0] == base);
        assert(edge_for(e.labels, name, depth, 0) == Some(0int));
    } else {
        assert forall|i: int| lo <= i < g implies (#[trigger] names[i]).0 != name by {
            if names[i].0 == name {
                assert(name.take(end) == names[lo].0.take(end));
                assert(name.subrange(depth, depth + label.len()) =~= label) by {
                    assert forall|k: int| 0 <= k < label.len() implies name[depth + k]
                        == label[k] by {
                        assert(name.take(end)[depth + k] == name[depth + k]);
                        assert(names[lo].0.take(end)[depth + k] == names[lo].0[depth + k]);
                    }
                }
            }
        }
        lemma_exported_skip(names, lo, g, hi, name);
        assert(e.labels[0] == label);
        lemma_edge_for_rest(label, rest.labels, name, depth, 0);
        if g < hi {
            assert(names[g].0.take(depth) == names[lo].0.take(depth));
            lemma_edges_find(names, g, hi, depth, base + child.len(), all, name);
            match edge_for(rest.labels, name, depth, 0) {
                Some(k) => {
                    lemma_edge_for_range(rest.labels, name, depth, 0);
                    lemma_edges_lens(names, g, hi, depth, base + child.len());
                    assert(e.labels[k + 1] == rest.labels[k]);
                    assert(e.kids[k + 1] == rest.kids[k]);
                },
                None => {},
            }
        } else {
            assert(rest.labels =~= Seq::empty());
        }
    }
}

proof fn lemma_edges_lens(
    names: Seq<(Seq<u8>, ExportView)>,
    lo: int,
    hi: int,
    depth: int,
    base: int,
)
    ensures
        super::export_trie::edges(names, lo, hi, depth, base).labels.len()
            == super::export_trie::edges(names, lo, hi, depth, base).kids.len(),
{
    super::export_trie::lemma_edges_wf(names, lo, hi, depth, base);
}

proof fn lemma_edge_for_range(labels: Seq<Seq<u8>>, name: Seq<u8>, depth: int, k: int)
    requires
        k >= 0,
    ensures
        edge_for(labels, name, depth, k) matches Some(j) ==> k <= j < labels.len()
            && bytes::occurs_at(name, labels[j], depth),
    decreases labels.len() - k,
{
    if k < labels.len() {
        lemma_edge_for_range(labels, name, depth, k + 1);
    }
}

/// Looking a name up in the trie of some sorted names finds what they say
/// of it, and nothing for a name that is not among them.
pub proof fn lemma_trie_lookup(names: Seq<(Seq<u8>, ExportView)>, name: Seq<u8>)
    requires
        super::export_trie::names_increase(names),
        names.len() > 0,
    ensures
        lookup(super::export_trie::trie_of(names), 0, name, 0) == exported_as(
            names,
            0,
            names.len() as int,
            name,
        ),
{
    let t = super::export_trie::trie_of(names);
    assert(t.subrange(0, t.len() as int) =~= t);
    assert forall|i: int| 0 <= i < names.len() implies ({
        let n = (#[trigger] names[i]).0;
        0 <= n.len() && n.take(0) == names[0].0.take(0)
    }) by {
        assert(names[i].0.take(0) =~= names[0].0.take(0));
    }
    assert(name.take(0) =~= names[0].0.take(0));
    lemma_subtrie_finds(names, 0, names.len() as int, 0, 0, t, name);
}

/// The payload at `pos` of an encoded trie.
pub open spec fn payload_at(data: Seq<u8>, pos: int) -> Option<ExportView> {
    match crate::input_files::uleb_at(data, pos) {
        None => None,
        Some((flags, p)) => match crate::input_files::uleb_at(data, p) {
            None => None,
            Some((v, q)) => if flags == EXPORT_SYMBOL_FLAGS_REEXPORT {
                Some(
                    ExportView::Reexport {
                        ordinal: v as u32,
                        name: data.subrange(q, bytes::index_of_byte(data, 0, q)),
                    },
                )
            } else {
                Some(ExportView::Addr { flags: flags as u32, addr: v })
            },
        },
    }
}

/// The first of the `n` encoded edges from `pos` on whose label `name`
/// continues with at `depth`: where it leads, and the label's length.
pub open spec fn edge_at(data: Seq<u8>, pos: int, n: nat, name: Seq<u8>, depth: int) -> Option<
    (int, int),
>
    decreases n,
{
    if n == 0 {
        None
    } else {
        let end = bytes::index_of_byte(data, 0, pos);
        let label = data.subrange(pos, end);
        match crate::input_files::uleb_at(data, end + 1) {
            None => None,
            Some((off, next)) => if bytes::occurs_at(name, label, depth) {
                Some((off as int, label.len() as int))
            } else {
                edge_at(data, next, (n - 1) as nat, name, depth)
            },
        }
    }
}

/// What an encoded trie says of `name`, from the node at `pos` on, which is
/// reached by the first `depth` bytes: the way dyld looks names up.
pub open spec fn find_export(data: Seq<u8>, pos: int, name: Seq<u8>, depth: int) -> Option<
    ExportView,
>
    decreases name.len() - depth,
{
    match crate::input_files::uleb_at(data, pos) {
        None => None,
        Some((size, p)) => if depth >= name.len() {
            if size == 0 {
                None
            } else {
                payload_at(data, p)
            }
        } else {
            match edge_at(data, p + size + 1, data[p + size] as nat, name, depth) {
                None => None,
                Some((off, len)) => if len <= 0 || depth + len > name.len() {
                    None
                } else {
                    find_export(data, off, name, depth + len)
                },
            }
        },
    }
}

/// True when no byte of `s` is NUL.
pub open spec fn no_nul(s: Seq<u8>) -> bool {
    forall|i: int| 0 <= i < s.len() ==> #[trigger] s[i] != 0
}

/// True when an export can be told from its payload.
pub open spec fn readable(e: ExportView) -> bool {
    match e {
        ExportView::Addr { flags, addr } => flags != EXPORT_SYMBOL_FLAGS_REEXPORT,
        ExportView::Reexport { ordinal, name } => no_nul(name),
    }
}

/// True when the names can be the names of symbols, and their exports can
/// be told apart.
pub open spec fn all_readable(names: Seq<(Seq<u8>, ExportView)>) -> bool {
    forall|i: int| 0 <= i < names.len() ==> no_nul((#[trigger] names[i]).0) && readable(names[i].1)
}

/// True when a node can be read back.
spec fn node_ok(n: NodeView) -> bool {
    &&& n.kids.len() == n.labels.len()
    &&& n.labels.len() <= 255
    &&& forall|k: int| 0 <= k < n.labels.len() ==> no_nul(#[trigger] n.labels[k])
    &&& n.export matches Some(e) ==> readable(e)
}

proof fn lemma_subtrie_ok(
    names: Seq<(Seq<u8>, ExportView)>,
    lo: int,
    hi: int,
    depth: int,
    base: int,
)
    requires
        super::export_trie::names_increase(names),
        super::export_trie::share(names, lo, hi, depth),
        all_readable(names),
        lo < hi,
        0 <= depth,
    ensures
        forall|i: int|
            0 <= i < super::export_trie::subtrie(names, lo, hi, depth, base).len() ==> node_ok(
                #[trigger] super::export_trie::subtrie(names, lo, hi, depth, base)[i],
            ),
    decreases hi - lo, names[lo].0.len() - depth, 1int,
{
    let t = super::export_trie::subtrie(names, lo, hi, depth, base);
    let ends = names[lo].0.len() == depth;
    let start = if ends {
        lo + 1
    } else {
        lo
    };
    assert forall|k: int| start <= k < hi implies (#[trigger] names[k]).0.len() > depth by {
        if k > lo {
            super::export_trie::lemma_lex_byte(names[lo].0, names[k].0, depth);
        }
    }
    let e = super::export_trie::edges(names, start, hi, depth, base + 1);
    if start < hi {
        assert(super::export_trie::share(names, start, hi, depth));
        lemma_edges_ok(names, start, hi, depth, base + 1);
        assert(names[start].0[depth] != 0);
    }
    lemma_edges_lens(names, start, hi, depth, base + 1);
    assert forall|i: int| 0 <= i < t.len() implies node_ok(#[trigger] t[i]) by {
        if i > 0 {
            assert(t[i] == e.below[i - 1]);
        }
    }
}

proof fn lemma_edges_ok(
    names: Seq<(Seq<u8>, ExportView)>,
    lo: int,
    hi: int,
    depth: int,
    base: int,
)
    requires
        super::export_trie::names_increase(names),
        super::export_trie::share(names, lo, hi, depth),
        all_readable(names),
        lo < hi,
        0 <= depth,
        forall|k: int| lo <= k < hi ==> (#[trigger] names[k]).0.len() > depth,
    ensures
        forall|i: int|
            0 <= i < super::export_trie::edges(names, lo, hi, depth, base).below.len() ==> node_ok(
                #[trigger] super::export_trie::edges(names, lo, hi, depth, base).below[i],
            ),
        forall|k: int|
            0 <= k < super::export_trie::edges(names, lo, hi, depth, base).labels.len()
                ==> no_nul(
                #[trigger] super::export_trie::edges(names, lo, hi, depth, base).labels[k],
            ),
        super::export_trie::edges(names, lo, hi, depth, base).labels.len() <= 256
            - names[lo].0[depth],
    decreases hi - lo, names[lo].0.len() - depth, 0int,
{
    let e = super::export_trie::edges(names, lo, hi, depth, base);
    let g = super::export_trie::group_end(names, lo, lo + 1, hi, depth);
    super::export_trie::lemma_group_end(names, lo, lo + 1, hi, depth);
    super::export_trie::lemma_group_shares(names, lo, g, hi, depth);
    let end = super::export_trie::common_end(names[lo].0, names[g - 1].0, depth);
    let child = super::export_trie::subtrie(names, lo, g, end, base);
    let rest = super::export_trie::edges(names, g, hi, depth, base + child.len());
    let label = names[lo].0.subrange(depth, end);
    assert(e.labels == seq![label] + rest.labels);
    assert(e.below == child + rest.below);
    lemma_subtrie_ok(names, lo, g, end, base);
    if g < hi {
        lemma_group_bytes(names, lo, g, hi, depth);
        assert(super::export_trie::share(names, g, hi, depth));
        lemma_edges_ok(names, g, hi, depth, base + child.len());
    } else {
        assert(rest.labels =~= Seq::empty());
        assert(rest.below =~= Seq::empty());
    }
    assert forall|i: int| 0 <= i < e.below.len() implies node_ok(#[trigger] e.below[i]) by {
        if i < child.len() {
            assert(e.below[i] == child[i]);
        } else {
            assert(e.below[i] == rest.below[i - child.len()]);
        }
    }
    assert forall|k: int| 0 <= k < e.labels.len() implies no_nul(#[trigger] e.labels[k]) by {
        if k == 0 {
            assert(no_nul(names[lo].0));
            assert forall|i: int| 0 <= i < label.len() implies #[trigger] label[i] != 0 by {
                assert(label[i] == names[lo].0[depth + i]);
            }
        } else {
            assert(e.labels[k] == rest.labels[k - 1]);
        }
    }
}

/// A string that is not behind its NUL is read back.
proof fn lemma_cstring(before: Seq<u8>, s: Seq<u8>, after: Seq<u8>, i: int)
    requires
        no_nul(s),
        0 <= i <= s.len(),
    ensures
        bytes::index_of_byte(before + s + seq![0u8] + after, 0, before.len() + i) == before.len()
            + s.len(),
    decreases s.len() - i,
{
    let data = before + s + seq![0u8] + after;
    if i < s.len() {
        assert(data[before.len() + i] == s[i]);
        lemma_cstring(before, s, after, i + 1);
    } else {
        assert(data[before.len() + i] == 0);
    }
}

/// A payload is read back.
proof fn lemma_payload(before: Seq<u8>, e: ExportView, after: Seq<u8>)
    requires
        readable(e),
    ensures
        payload_at(before + e.payload() + after, before.len() as int) == Some(e),
{
    let data = before + e.payload() + after;
    match e {
        ExportView::Addr { flags, addr } => {
            let f = crate::util::uleb(flags as nat);
            let a = crate::util::uleb(addr as nat);
            assert(data =~= before + f + (a + after));
            assert(data =~= (before + f) + a + after);
            crate::input_files::lemma_uleb_at_round_trip(flags as u64, before, a + after);
            crate::input_files::lemma_uleb_at_round_trip(addr, before + f, after);
        },
        ExportView::Reexport { ordinal, name } => {
            let f = crate::util::uleb(EXPORT_SYMBOL_FLAGS_REEXPORT as nat);
            let o = crate::util::uleb(ordinal as nat);
            let tail = o + name + seq![0u8] + after;
            assert(data =~= before + f + tail);
            crate::input_files::lemma_uleb_at_round_trip(
                EXPORT_SYMBOL_FLAGS_REEXPORT,
                before,
                tail,
            );
            assert(data =~= (before + f) + o + (name + seq![0u8] + after));
            crate::input_files::lemma_uleb_at_round_trip(
                ordinal as u64,
                before + f,
                name + seq![0u8] + after,
            );
            assert(data =~= (before + f + o) + name + seq![0u8] + after);
            lemma_cstring(before + f + o, name, after, 0);
            let q = (before + f + o).len() as int;
            assert(data.subrange(q, q + name.len()) =~= name);
        },
    }
}

/// The edges from the `k`th on are read back.
proof fn lemma_edges_read(
    before: Seq<u8>,
    labels: Seq<Seq<u8>>,
    kids: Seq<int>,
    offs: Seq<u32>,
    after: Seq<u8>,
    name: Seq<u8>,
    depth: int,
    k: int,
)
    requires
        labels.len() == kids.len(),
        0 <= k <= kids.len(),
        forall|i: int| 0 <= i < labels.len() ==> no_nul(#[trigger] labels[i]),
    ensures
        edge_at(
            before + super::export_trie::edge_bytes(labels, kids, offs) + after,
            (before + super::export_trie::edge_bytes(labels.take(k), kids.take(k), offs)).len()
                as int,
            (kids.len() - k) as nat,
            name,
            depth,
        ) == match edge_for(labels, name, depth, k) {
            Some(j) => Some((offs[kids[j]] as int, labels[j].len() as int)),
            None => None,
        },
    decreases kids.len() - k,
{
    if k < kids.len() {
        let all = super::export_trie::edge_bytes(labels, kids, offs);
        let data = before + all + after;
        let head = super::export_trie::edge_bytes(labels.take(k), kids.take(k), offs);
        let u = crate::util::uleb(offs[kids[k]] as nat);
        let rest = lemma_edge_split(labels, kids, offs, k + 1);
        let next = super::export_trie::edge_bytes(labels.take(k + 1), kids.take(k + 1), offs);
        assert(labels.take(k + 1).drop_last() =~= labels.take(k));
        assert(kids.take(k + 1).drop_last() =~= kids.take(k));
        assert(next == head + labels[k] + seq![0u8] + u);
        assert(data =~= (before + head) + labels[k] + seq![0u8] + (u + rest + after));
        lemma_cstring(before + head, labels[k], u + rest + after, 0);
        let pos = (before + head).len() as int;
        let end = pos + labels[k].len();
        assert(data.subrange(pos, end) =~= labels[k]);
        assert(data =~= (before + head + labels[k] + seq![0u8]) + u + (rest + after));
        crate::input_files::lemma_uleb_at_round_trip(
            offs[kids[k]] as u64,
            before + head + labels[k] + seq![0u8],
            rest + after,
        );
        lemma_edges_read(before, labels, kids, offs, after, name, depth, k + 1);
    }
}

/// The encoding of the edges from the `k`th on.
proof fn lemma_edge_split(labels: Seq<Seq<u8>>, kids: Seq<int>, offs: Seq<u32>, k: int) -> (s: Seq<
    u8,
>)
    requires
        labels.len() == kids.len(),
        0 <= k <= kids.len(),
    ensures
        super::export_trie::edge_bytes(labels, kids, offs) == super::export_trie::edge_bytes(
            labels.take(k),
            kids.take(k),
            offs,
        ) + s,
    decreases kids.len() - k,
{
    if k == kids.len() {
        assert(labels.take(k) =~= labels);
        assert(kids.take(k) =~= kids);
        assert(super::export_trie::edge_bytes(labels, kids, offs)
            =~= super::export_trie::edge_bytes(labels.take(k), kids.take(k), offs)
            + Seq::<u8>::empty());
        Seq::empty()
    } else {
        let s = lemma_edge_split(labels, kids, offs, k + 1);
        assert(labels.take(k + 1).drop_last() =~= labels.take(k));
        assert(kids.take(k + 1).drop_last() =~= kids.take(k));
        let t = labels[k] + seq![0u8] + crate::util::uleb(offs[kids[k]] as nat) + s;
        assert(super::export_trie::edge_bytes(labels, kids, offs)
            =~= super::export_trie::edge_bytes(labels.take(k), kids.take(k), offs) + t);
        t
    }
}

proof fn lemma_node_len(n: NodeView, offs: Seq<u32>)
    requires
        n.kids.len() == n.labels.len(),
    ensures
        super::export_trie::node_bytes(n, offs).len() == super::export_trie::fixed_size(n)
            + super::export_trie::offsets_size(n.kids, offs),
{
    lemma_edges_len(n.labels, n.kids, offs);
}

proof fn lemma_edges_len(labels: Seq<Seq<u8>>, kids: Seq<int>, offs: Seq<u32>)
    requires
        labels.len() == kids.len(),
    ensures
        super::export_trie::edge_bytes(labels, kids, offs).len()
            == super::export_trie::labels_size(labels) + super::export_trie::offsets_size(
            kids,
            offs,
        ),
    decreases kids.len(),
{
    if kids.len() > 0 {
        lemma_edges_len(labels.drop_last(), kids.drop_last(), offs);
    }
}

/// Where a node is in the encoded trie.
proof fn lemma_node_place(nodes: Seq<NodeView>, offs: Seq<u32>, i: int, n: int) -> (s: Seq<u8>)
    requires
        super::export_trie::edges_match(nodes),
        0 <= i < n <= nodes.len(),
    ensures
        super::export_trie::trie_bytes(nodes, offs, n) == super::export_trie::trie_bytes(
            nodes,
            offs,
            i,
        ) + super::export_trie::node_bytes(nodes[i], offs) + s,
        super::export_trie::trie_bytes(nodes, offs, i).len() == super::export_trie::node_start(
            nodes,
            offs,
            i,
        ),
    decreases n,
{
    lemma_trie_len(nodes, offs, i);
    if n == i + 1 {
        assert(super::export_trie::trie_bytes(nodes, offs, n) =~= super::export_trie::trie_bytes(
            nodes,
            offs,
            i,
        ) + super::export_trie::node_bytes(nodes[i], offs) + Seq::<u8>::empty());
        Seq::empty()
    } else {
        let s = lemma_node_place(nodes, offs, i, n - 1);
        let t = s + super::export_trie::node_bytes(nodes[n - 1], offs);
        assert(super::export_trie::trie_bytes(nodes, offs, n) =~= super::export_trie::trie_bytes(
            nodes,
            offs,
            i,
        ) + super::export_trie::node_bytes(nodes[i], offs) + t);
        t
    }
}

proof fn lemma_trie_len(nodes: Seq<NodeView>, offs: Seq<u32>, n: int)
    requires
        super::export_trie::edges_match(nodes),
        0 <= n <= nodes.len(),
    ensures
        super::export_trie::trie_bytes(nodes, offs, n).len() == super::export_trie::node_start(
            nodes,
            offs,
            n,
        ),
    decreases n,
{
    if n > 0 {
        lemma_trie_len(nodes, offs, n - 1);
        assert(nodes[n - 1].kids.len() == nodes[n - 1].labels.len());
        lemma_node_len(nodes[n - 1], offs);
    }
}

/// The size of a node's payload.
spec fn payload_size(n: NodeView) -> int {
    match n.export {
        Some(e) => e.payload().len() as int,
        None => 0,
    }
}

/// A node's terminal is read back.
proof fn lemma_terminal_read(head: Seq<u8>, n: NodeView, tail: Seq<u8>)
    requires
        node_ok(n),
        payload_fits(n),
    ensures
        ({
            let t = super::export_trie::terminal_of(n);
            let data = head + t + tail;
            match crate::input_files::uleb_at(data, head.len() as int) {
                Some((size, p)) => {
                    &&& size == payload_size(n)
                    &&& p + size == (head + t).len()
                    &&& match n.export {
                        Some(e) => size > 0 && payload_at(data, p) == Some(e),
                        None => size == 0,
                    }
                },
                None => false,
            }
        }),
{
    let t = super::export_trie::terminal_of(n);
    let data = head + t + tail;
    match n.export {
        Some(e) => {
            let size = e.payload().len();
            let u = crate::util::uleb(size);
            assert(data =~= head + u + (e.payload() + tail));
            crate::input_files::lemma_uleb_at_round_trip(size as u64, head, e.payload() + tail);
            assert(data =~= (head + u) + e.payload() + tail);
            lemma_payload(head + u, e, tail);
            lemma_payload_nonempty(e);
        },
        None => {
            assert(crate::util::uleb(0) =~= seq![0u8]);
            assert(data =~= head + crate::util::uleb(0) + tail);
            crate::input_files::lemma_uleb_at_round_trip(0, head, tail);
        },
    }
}

/// Looking a name up in the encoded trie finds what the trie says of it.
#[verifier::rlimit(40)]
#[verifier::spinoff_prover]
#[verifier::rlimit(60)]
proof fn lemma_find_in_bytes(
    nodes: Seq<NodeView>,
    offs: Seq<u32>,
    pad: Seq<u8>,
    i: int,
    name: Seq<u8>,
    depth: int,
)
    requires
        super::export_trie::is_layout(nodes, offs),
        super::export_trie::kids_exist(nodes),
        super::export_trie::edges_match(nodes),
        forall|k: int| 0 <= k < nodes.len() ==> node_ok(#[trigger] nodes[k]),
        forall|k: int| 0 <= k < nodes.len() ==> payload_fits(#[trigger] nodes[k]),
        0 <= i < nodes.len(),
        0 <= depth <= name.len(),
    ensures
        find_export(
            super::export_trie::trie_bytes(nodes, offs, nodes.len() as int) + pad,
            offs[i] as int,
            name,
            depth,
        ) == lookup(nodes, i, name, depth),
    decreases name.len() - depth,
{
    let whole = super::export_trie::trie_bytes(nodes, offs, nodes.len() as int);
    let data = whole + pad;
    let s = lemma_node_place(nodes, offs, i, nodes.len() as int);
    let n = nodes[i];
    let head = super::export_trie::trie_bytes(nodes, offs, i);
    let eb = super::export_trie::edge_bytes(n.labels, n.kids, offs);
    let count = seq![(n.kids.len() % 256) as u8];
    let after = s + pad;
    let t = super::export_trie::terminal_of(n);
    assert(node_ok(n));
    assert(payload_fits(n));
    assert(offs[i] == super::export_trie::node_start(nodes, offs, i));
    assert(data =~= head + (t + count + eb) + after);
    let before = head + t + count;
    assert(data =~= before + eb + after);
    assert(data =~= head + t + (count + eb + after));
    lemma_terminal_read(head, n, count + eb + after);
    if depth < name.len() {
        let p = (head + t).len() as int;
        assert(data[p] == (n.kids.len() % 256) as u8);
        assert(n.labels.take(0) =~= Seq::empty());
        assert(n.kids.take(0) =~= Seq::empty());
        assert(before + super::export_trie::edge_bytes(n.labels.take(0), n.kids.take(0), offs)
            =~= before);
        lemma_edges_read(before, n.labels, n.kids, offs, after, name, depth, 0);
        lemma_edge_for_range(n.labels, name, depth, 0);
        match edge_for(n.labels, name, depth, 0) {
            Some(k) => {
                if n.labels[k].len() > 0 {
                    assert(0 <= nodes[i].kids[k] < nodes.len());
                    lemma_find_in_bytes(
                        nodes,
                        offs,
                        pad,
                        n.kids[k],
                        name,
                        depth + n.labels[k].len(),
                    );
                }
            },
            None => {},
        }
    }
}

/// True when the payload's size is a 64-bit number.
spec fn payload_fits(n: NodeView) -> bool {
    n.export matches Some(e) ==> e.payload().len() <= u64::MAX
}

proof fn lemma_payload_nonempty(e: ExportView)
    ensures
        e.payload().len() > 0,
{
}

proof fn lemma_fits(nodes: Seq<NodeView>, i: int)
    requires
        0 <= i < nodes.len(),
        super::export_trie::size_bound(nodes, nodes.len() as int) <= u32::MAX,
    ensures
        payload_fits(nodes[i]),
{
    super::export_trie::lemma_size_bound(nodes, i + 1);
    super::export_trie::lemma_size_bound_nonneg(nodes, i);
    super::export_trie::lemma_labels_size(nodes[i].labels);
}

/// Looking a name up in the encoded export trie, the way dyld does, finds
/// what was exported under that name, and nothing for any other name.
pub proof fn lemma_export_trie_lookup(names: Seq<(Seq<u8>, ExportView)>, name: Seq<u8>)
    requires
        super::export_trie::names_increase(names),
        all_readable(names),
        names.len() > 0,
        super::export_trie::size_bound(
            super::export_trie::trie_of(names),
            super::export_trie::trie_of(names).len() as int,
        ) <= u32::MAX,
    ensures
        find_export(super::export_trie::export_trie(names), 0, name, 0) == exported_as(
            names,
            0,
            names.len() as int,
            name,
        ),
{
    let nodes = super::export_trie::trie_of(names);
    let offs = super::export_trie::layout_of(nodes);
    assert forall|i: int| 0 <= i < names.len() implies ({
        let n = (#[trigger] names[i]).0;
        0 <= n.len() && n.take(0) == names[0].0.take(0)
    }) by {
        assert(names[i].0.take(0) =~= names[0].0.take(0));
    }
    lemma_trie_lookup(names, name);
    super::export_trie::lemma_subtrie_wf(names, 0, names.len() as int, 0, 0);
    lemma_subtrie_ok(names, 0, names.len() as int, 0, 0);
    super::export_trie::lemma_least_layout_exists(nodes);
    assert forall|k: int| 0 <= k < nodes.len() implies payload_fits(#[trigger] nodes[k]) by {
        lemma_fits(nodes, k);
    }
    let whole = super::export_trie::trie_bytes(nodes, offs, nodes.len() as int);
    let pad = bytes::zeros(bytes::pad8_len(whole.len() as int));
    assert(bytes::padded8(whole) =~= whole + pad);
    assert(offs[0] == super::export_trie::node_start(nodes, offs, 0));
    lemma_find_in_bytes(nodes, offs, pad, 0, name, 0);
}

} // verus!
