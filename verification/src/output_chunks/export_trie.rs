//! The export trie: dyld's index of the image's exported symbols.
//!
//! It is a radix tree. Each node holds an optional terminal payload and
//! edges labeled with NUL-terminated string fragments that point at child
//! nodes by ULEB128 offset within the trie. Since the offsets vary in
//! length, laying the nodes out iterates to a fixed point.
use crate::macho::consts::EXPORT_SYMBOL_FLAGS_REEXPORT;
use crate::util::{bytes, order, uleb_len, write_uleb};
use vstd::prelude::*;

verus! {

/// What an export trie terminal says about a symbol.
#[derive(Debug)]
pub enum Export {
    /// A symbol defined in this image: flags and image-relative address.
    Addr { flags: u32, addr: u64 },
    /// A symbol re-exported from a dylib: the dylib's ordinal and the name
    /// it has there.
    Reexport { ordinal: u32, name: Vec<u8> },
}

/// What an export trie terminal says, as mathematical values.
#[verifier::ext_equal]
pub enum ExportView {
    Addr { flags: u32, addr: u64 },
    Reexport { ordinal: u32, name: Seq<u8> },
}

impl ExportView {
    /// The terminal's payload: flags, then either the address or the
    /// ordinal and the re-exported name.
    pub open spec fn payload(self) -> Seq<u8> {
        match self {
            ExportView::Addr { flags, addr } => crate::util::uleb(flags as nat)
                + crate::util::uleb(addr as nat),
            ExportView::Reexport { ordinal, name } => crate::util::uleb(
                EXPORT_SYMBOL_FLAGS_REEXPORT as nat,
            ) + crate::util::uleb(ordinal as nat) + name + seq![0u8],
        }
    }
}

impl View for Export {
    type V = ExportView;

    open spec fn view(&self) -> ExportView {
        match self {
            Export::Addr { flags, addr } => ExportView::Addr { flags: *flags, addr: *addr },
            Export::Reexport { ordinal, name } => ExportView::Reexport {
                ordinal: *ordinal,
                name: name@,
            },
        }
    }
}

impl Export {
    /// The size of the terminal's payload, or `None` if it is too large to
    /// count.
    pub fn terminal_size(&self) -> (r: Option<u64>)
        ensures
            match r {
                Some(n) => n == self@.payload().len(),
                None => self@.payload().len() > u32::MAX,
            },
    {
        match self {
            Export::Addr { flags, addr } => Some(
                uleb_len(*flags as u64) as u64 + uleb_len(*addr) as u64,
            ),
            Export::Reexport { ordinal, name } => {
                let len: u64 = name.len() as u64;
                if len > 0xffff_ffff {
                    return None;
                }
                let flags: u64 = uleb_len(EXPORT_SYMBOL_FLAGS_REEXPORT) as u64;
                Some(flags + uleb_len(*ordinal as u64) as u64 + len + 1)
            },
        }
    }

    /// Appends the terminal's payload.
    pub fn push_payload(&self, buf: &mut Vec<u8>)
        ensures
            final(buf)@ == old(buf)@ + self@.payload(),
    {
        let ghost before = buf@;
        match self {
            Export::Addr { flags, addr } => {
                write_uleb(buf, *flags as u64);
                write_uleb(buf, *addr);
                assert(buf@ =~= before + self@.payload());
            },
            Export::Reexport { ordinal, name } => {
                write_uleb(buf, EXPORT_SYMBOL_FLAGS_REEXPORT);
                write_uleb(buf, *ordinal as u64);
                bytes::append(buf, name.as_slice());
                buf.push(0);
                assert(buf@ =~= before + self@.payload());
            },
        }
    }

    /// A copy of the export.
    pub fn duplicate(&self) -> (r: Export)
        ensures
            r@ == self@,
    {
        match self {
            Export::Addr { flags, addr } => Export::Addr { flags: *flags, addr: *addr },
            Export::Reexport { ordinal, name } => Export::Reexport {
                ordinal: *ordinal,
                name: bytes::to_vec(name.as_slice()),
            },
        }
    }
}

/// An exported name.
#[derive(Debug)]
pub struct Exported {
    pub name: Vec<u8>,
    pub export: Export,
}

impl View for Exported {
    type V = (Seq<u8>, ExportView);

    open spec fn view(&self) -> (Seq<u8>, ExportView) {
        (self.name@, self.export@)
    }
}

/// Exported names as mathematical values.
pub open spec fn exported_views(v: Seq<Exported>) -> Seq<(Seq<u8>, ExportView)> {
    v.map_values(|e: Exported| e@)
}

/// True when the names strictly increase.
pub open spec fn names_increase(names: Seq<(Seq<u8>, ExportView)>) -> bool {
    forall|i: int, j: int|
        0 <= i < j < names.len() ==> order::lex_before(
            (#[trigger] names[i]).0,
            (#[trigger] names[j]).0,
        )
}

/// A node of the trie. Nodes are numbered in pre-order, and the edge `k`
/// has the label `labels[k]` and leads to the node `kids[k]`.
#[derive(Debug)]
pub struct TrieNode {
    pub export: Option<Export>,
    pub labels: Vec<Vec<u8>>,
    pub kids: Vec<usize>,
}

/// A node of the trie, as mathematical values.
#[verifier::ext_equal]
pub struct NodeView {
    pub export: Option<ExportView>,
    pub labels: Seq<Seq<u8>>,
    pub kids: Seq<int>,
}

impl View for TrieNode {
    type V = NodeView;

    open spec fn view(&self) -> NodeView {
        NodeView {
            export: match self.export {
                Some(e) => Some(e@),
                None => None,
            },
            labels: bytes::views(self.labels@),
            kids: self.kids@.map_values(|k: usize| k as int),
        }
    }
}

/// Nodes as mathematical values.
pub open spec fn node_views(v: Seq<TrieNode>) -> Seq<NodeView> {
    v.map_values(|n: TrieNode| n@)
}

/// The byte of `s` at `i`, or -1 behind its end.
pub open spec fn byte_at(s: Seq<u8>, i: int) -> int {
    if 0 <= i < s.len() {
        s[i] as int
    } else {
        -1
    }
}

/// The end of the run of names from `i` on that agree with the name `lo`
/// on the byte at `depth`.
pub open spec fn group_end(
    names: Seq<(Seq<u8>, ExportView)>,
    lo: int,
    i: int,
    hi: int,
    depth: int,
) -> int
    decreases hi - i,
{
    if i >= hi || byte_at(names[i].0, depth) != byte_at(names[lo].0, depth) {
        i
    } else {
        group_end(names, lo, i + 1, hi, depth)
    }
}

/// The end of the common prefix of `a` and `b`, which agree up to `i`.
pub open spec fn common_end(a: Seq<u8>, b: Seq<u8>, i: int) -> int
    decreases a.len() - i,
{
    if i < 0 || i >= a.len() || i >= b.len() || a[i] != b[i] {
        i
    } else {
        common_end(a, b, i + 1)
    }
}

/// The edges of a node and the nodes below it.
#[verifier::ext_equal]
pub struct Edges {
    pub labels: Seq<Seq<u8>>,
    pub kids: Seq<int>,
    pub below: Seq<NodeView>,
}

/// The subtrie for the sorted names from `lo` to `hi`, which share their
/// first `depth` bytes, in pre-order; its first node has the number `base`.
pub open spec fn subtrie(
    names: Seq<(Seq<u8>, ExportView)>,
    lo: int,
    hi: int,
    depth: int,
    base: int,
) -> Seq<NodeView>
    decreases hi - lo, names[lo].0.len() - depth, 1int,
{
    if lo >= hi {
        seq![NodeView { export: None, labels: Seq::empty(), kids: Seq::empty() }]
    } else {
        let ends = names[lo].0.len() == depth;
        let e = if ends {
            edges(names, lo + 1, hi, depth, base + 1)
        } else {
            edges(names, lo, hi, depth, base + 1)
        };
        seq![
            NodeView {
                export: if ends {
                    Some(names[lo].1)
                } else {
                    None
                },
                labels: e.labels,
                kids: e.kids,
            },
        ] + e.below
    }
}

/// The edges for the sorted names from `lo` to `hi`, which are longer than
/// `depth`: the names split into groups by the byte at `depth`, and a
/// group's label is the rest of its common prefix. The first node below has
/// the number `base`.
pub open spec fn edges(
    names: Seq<(Seq<u8>, ExportView)>,
    lo: int,
    hi: int,
    depth: int,
    base: int,
) -> Edges
    decreases hi - lo, names[lo].0.len() - depth, 0int,
{
    let g = group_end(names, lo, lo + 1, hi, depth);
    let end = common_end(names[lo].0, names[g - 1].0, depth);
    if lo >= hi || g <= lo || g > hi || end <= depth || end > names[lo].0.len() {
        Edges { labels: Seq::empty(), kids: Seq::empty(), below: Seq::empty() }
    } else {
        let child = subtrie(names, lo, g, end, base);
        let rest = edges(names, g, hi, depth, base + child.len());
        Edges {
            labels: seq![names[lo].0.subrange(depth, end)] + rest.labels,
            kids: seq![base] + rest.kids,
            below: child + rest.below,
        }
    }
}

/// The trie of the sorted names.
pub open spec fn trie_of(names: Seq<(Seq<u8>, ExportView)>) -> Seq<NodeView> {
    subtrie(names, 0, names.len() as int, 0, 0)
}

pub proof fn lemma_group_end(
    names: Seq<(Seq<u8>, ExportView)>,
    lo: int,
    i: int,
    hi: int,
    depth: int,
)
    requires
        i <= hi,
    ensures
        i <= group_end(names, lo, i, hi, depth) <= hi,
        forall|k: int|
            i <= k < group_end(names, lo, i, hi, depth) ==> byte_at(
                (#[trigger] names[k]).0,
                depth,
            ) == byte_at(names[lo].0, depth),
        group_end(names, lo, i, hi, depth) < hi ==> byte_at(
            names[group_end(names, lo, i, hi, depth)].0,
            depth,
        ) != byte_at(names[lo].0, depth),
    decreases hi - i,
{
    if i < hi && byte_at(names[i].0, depth) == byte_at(names[lo].0, depth) {
        lemma_group_end(names, lo, i + 1, hi, depth);
    }
}

proof fn lemma_common_end(a: Seq<u8>, b: Seq<u8>, i: int)
    requires
        0 <= i <= a.len(),
        i <= b.len(),
    ensures
        i <= common_end(a, b, i) <= a.len(),
        common_end(a, b, i) <= b.len(),
        forall|k: int| i <= k < common_end(a, b, i) ==> #[trigger] a[k] == b[k],
        common_end(a, b, i) < a.len() && common_end(a, b, i) < b.len() ==> a[common_end(a, b, i)]
            != b[common_end(a, b, i)],
    decreases a.len() - i,
{
    if i < a.len() && i < b.len() && a[i] == b[i] {
        lemma_common_end(a, b, i + 1);
    }
}

/// Names from `lo` to `hi` that share their first `depth` bytes.
pub open spec fn share(
    names: Seq<(Seq<u8>, ExportView)>,
    lo: int,
    hi: int,
    depth: int,
) -> bool {
    &&& 0 <= lo <= hi <= names.len()
    &&& forall|i: int|
        lo <= i < hi ==> {
            let n = (#[trigger] names[i]).0;
            depth <= n.len() && n.take(depth) == names[lo].0.take(depth)
        }
}

/// Of two ordered names that agree up to `depth`, the byte at `depth` of the
/// first is not above that of the second, and the second is longer than
/// `depth`.
pub proof fn lemma_lex_byte(a: Seq<u8>, b: Seq<u8>, depth: int)
    requires
        order::lex_before(a, b),
        0 <= depth <= a.len(),
        depth <= b.len(),
        a.take(depth) == b.take(depth),
    ensures
        depth < b.len(),
        byte_at(a, depth) <= byte_at(b, depth),
    decreases depth,
{
    if depth > 0 {
        assert(a.take(depth)[0] == a[0]);
        assert(b.take(depth)[0] == b[0]);
        assert(a.drop_first().take(depth - 1) =~= a.take(depth).drop_first());
        assert(b.drop_first().take(depth - 1) =~= b.take(depth).drop_first());
        lemma_lex_byte(a.drop_first(), b.drop_first(), depth - 1);
        assert(byte_at(a, depth) == byte_at(a.drop_first(), depth - 1));
        assert(byte_at(b, depth) == byte_at(b.drop_first(), depth - 1));
    }
}

/// The names of one group share the group's common prefix.
pub proof fn lemma_group_shares(
    names: Seq<(Seq<u8>, ExportView)>,
    lo: int,
    g: int,
    hi: int,
    depth: int,
)
    requires
        names_increase(names),
        share(names, lo, hi, depth),
        0 <= depth < names[lo].0.len(),
        lo < g <= hi,
        forall|k: int|
            lo <= k < g ==> byte_at((#[trigger] names[k]).0, depth) == byte_at(
                names[lo].0,
                depth,
            ),
    ensures
        depth < common_end(names[lo].0, names[g - 1].0, depth) <= names[lo].0.len(),
        share(names, lo, g, common_end(names[lo].0, names[g - 1].0, depth)),
{
    let a = names[lo].0;
    let b = names[g - 1].0;
    assert(byte_at(b, depth) == byte_at(a, depth));
    assert(b.len() > depth);
    lemma_common_end(a, b, depth);
    let end = common_end(a, b, depth);
    assert forall|k: int| 0 <= k < end implies a[k] == b[k] by {
        if k < depth {
            assert(b.take(depth) == a.take(depth));
            assert(a.take(depth)[k] == b.take(depth)[k]);
        }
    }
    assert(b.take(end) =~= a.take(end));
    assert forall|i: int| lo <= i < g implies ({
        let n = (#[trigger] names[i]).0;
        end <= n.len() && n.take(end) == a.take(end)
    }) by {
        lemma_between(a, names[i].0, b, end);
    }
}

/// A name between two names with a common prefix has that prefix.
proof fn lemma_between(a: Seq<u8>, n: Seq<u8>, b: Seq<u8>, end: int)
    requires
        a == n || order::lex_before(a, n),
        n == b || order::lex_before(n, b),
        0 <= end <= a.len(),
        end <= b.len(),
        a.take(end) == b.take(end),
    ensures
        end <= n.len(),
        n.take(end) == a.take(end),
    decreases end,
{
    if end > 0 && a != n && n != b {
        assert(a.take(end)[0] == a[0]);
        assert(b.take(end)[0] == b[0]);
        assert(n.len() > 0);
        assert(n[0] == a[0]);
        assert(a.drop_first().take(end - 1) =~= a.take(end).drop_first());
        assert(b.drop_first().take(end - 1) =~= b.take(end).drop_first());
        lemma_between(a.drop_first(), n.drop_first(), b.drop_first(), end - 1);
        assert(n.take(end) =~= seq![n[0]] + n.drop_first().take(end - 1));
        assert(a.take(end) =~= seq![a[0]] + a.drop_first().take(end - 1));
    } else if end <= 0 {
        assert(n.take(end) =~= a.take(end));
    }
}

/// Finds the end of the group of names that starts at `lo`.
fn find_group_end(names: &Vec<Exported>, lo: usize, hi: usize, depth: usize) -> (r: usize)
    requires
        lo < hi <= names.len(),
        depth < names[lo as int].name.len(),
    ensures
        r == group_end(exported_views(names@), lo as int, lo + 1, hi as int, depth as int),
        lo < r <= hi,
{
    let ghost views = exported_views(names@);
    let byte: u8 = names[lo].name[depth];
    let mut i: usize = lo + 1;
    while i < hi
        invariant
            lo < i <= hi <= names.len(),
            depth < names[lo as int].name.len(),
            byte == names[lo as int].name[depth as int],
            views == exported_views(names@),
            group_end(views, lo as int, lo + 1, hi as int, depth as int) == group_end(
                views,
                lo as int,
                i as int,
                hi as int,
                depth as int,
            ),
        decreases hi - i,
    {
        assert(views[i as int] == names[i as int]@);
        assert(views[lo as int] == names[lo as int]@);
        if depth >= names[i].name.len() || names[i].name[depth] != byte {
            return i;
        }
        i += 1;
    }
    i
}

/// Finds the end of the common prefix of two names that agree up to `from`.
fn find_common_end(a: &Vec<u8>, b: &Vec<u8>, from: usize) -> (r: usize)
    requires
        from <= a.len(),
        from <= b.len(),
    ensures
        r == common_end(a@, b@, from as int),
        from <= r <= a.len(),
{
    let mut i: usize = from;
    while i < a.len() && i < b.len() && a[i] == b[i]
        invariant
            from <= i <= a.len(),
            common_end(a@, b@, from as int) == common_end(a@, b@, i as int),
        decreases a.len() - i,
    {
        i += 1;
    }
    i
}

/// Builds the subtrie for the names from `lo` to `hi`, which share their
/// first `depth` bytes, behind the nodes in `out`.
pub fn build_trie(names: &Vec<Exported>, lo: usize, hi: usize, depth: usize, out: &mut Vec<TrieNode>)
    requires
        lo < hi,
        names_increase(exported_views(names@)),
        share(exported_views(names@), lo as int, hi as int, depth as int),
    ensures
        node_views(final(out)@) == node_views(old(out)@) + subtrie(
            exported_views(names@),
            lo as int,
            hi as int,
            depth as int,
            old(out).len() as int,
        ),
    decreases hi - lo, names[lo as int].name.len() - depth,
{
    let ghost views = exported_views(names@);
    let ghost before = node_views(out@);
    let at: usize = out.len();
    assert(views[lo as int] == names[lo as int]@);
    let ends: bool = names[lo].name.len() == depth;
    let export: Option<Export> = if ends {
        Some(names[lo].export.duplicate())
    } else {
        None
    };
    let start: usize = if ends {
        lo + 1
    } else {
        lo
    };
    let mut labels: Vec<Vec<u8>> = Vec::new();
    let mut kids: Vec<usize> = Vec::new();
    out.push(TrieNode { export: None, labels: Vec::new(), kids: Vec::new() });
    let ghost hole = out@[at as int]@;
    let ghost mut below: Seq<NodeView> = Seq::empty();
    let ghost all = edges(views, start as int, hi as int, depth as int, at + 1);
    let ghost kid_ints = kids@.map_values(|k: usize| k as int);
    let mut i: usize = start;
    proof {
        assert(node_views(out@) =~= before.push(hole) + below);
        assert(bytes::views(labels@) =~= Seq::<Seq<u8>>::empty());
        assert(kid_ints =~= Seq::<int>::empty());
        let rest = edges(views, i as int, hi as int, depth as int, out.len() as int);
        assert(all.labels =~= bytes::views(labels@) + rest.labels);
        assert(all.kids =~= kids@.map_values(|k: usize| k as int) + rest.kids);
        assert(all.below =~= below + rest.below);
        assert forall|k: int| start <= k < hi implies (#[trigger] views[k]).0.len() > depth by {
            if ends {
                lemma_lex_byte(views[lo as int].0, views[k].0, depth as int);
            } else if k > lo {
                lemma_lex_byte(views[lo as int].0, views[k].0, depth as int);
            }
        }
    }
    while i < hi
        invariant
            lo <= start <= i <= hi <= names.len(),
            start <= lo + 1,
            start == lo + 1 <==> ends,
            ends == (views[lo as int].0.len() == depth),
            views == exported_views(names@),
            names_increase(views),
            share(views, lo as int, hi as int, depth as int),
            forall|k: int| start <= k < hi ==> (#[trigger] views[k]).0.len() > depth,
            at < out.len(),
            before.len() == at,
            node_views(out@) == before.push(hole) + below,
            out.len() == at + 1 + below.len(),
            all.labels == bytes::views(labels@) + edges(
                views,
                i as int,
                hi as int,
                depth as int,
                out.len() as int,
            ).labels,
            all.kids == kids@.map_values(|k: usize| k as int) + edges(
                views,
                i as int,
                hi as int,
                depth as int,
                out.len() as int,
            ).kids,
            all.below == below + edges(
                views,
                i as int,
                hi as int,
                depth as int,
                out.len() as int,
            ).below,
        decreases hi - i,
    {
        assert(views[i as int] == names[i as int]@);
        assert(views[lo as int] == names[lo as int]@);
        let g: usize = find_group_end(names, i, hi, depth);
        assert(views[g - 1] == names[g - 1]@);
        proof {
            lemma_group_end(views, i as int, i + 1, hi as int, depth as int);
            assert(share(views, i as int, hi as int, depth as int));
            lemma_group_shares(views, i as int, g as int, hi as int, depth as int);
        }
        let end: usize = find_common_end(&names[i].name, &names[g - 1].name, depth);
        let base: usize = out.len();
        let ghost old_labels = bytes::views(labels@);
        let ghost old_kids = kids@.map_values(|k: usize| k as int);
        let ghost old_below = below;
        let ghost child = subtrie(views, i as int, g as int, end as int, base as int);
        labels.push(bytes::copy_range(names[i].name.as_slice(), depth, end));
        kids.push(base);
        build_trie(names, i, g, end, out);
        proof {
            below = below + child;
            assert(node_views(out@) =~= before.push(hole) + below);
            let rest = edges(views, g as int, hi as int, depth as int, out.len() as int);
            let cur = edges(views, i as int, hi as int, depth as int, base as int);
            assert(out.len() == node_views(out@).len());
            assert(cur.labels == seq![views[i as int].0.subrange(depth as int, end as int)]
                + rest.labels);
            assert(cur.kids == seq![base as int] + rest.kids);
            assert(cur.below == child + rest.below);
            assert(bytes::views(labels@) =~= old_labels.push(
                views[i as int].0.subrange(depth as int, end as int),
            ));
            assert(kids@.map_values(|k: usize| k as int) =~= old_kids.push(base as int));
            assert(all.labels =~= bytes::views(labels@) + rest.labels);
            assert(all.kids =~= kids@.map_values(|k: usize| k as int) + rest.kids);
            assert(all.below =~= below + rest.below);
        }
        i = g;
    }
    let ghost inner = out@;
    let node = TrieNode { export, labels, kids };
    let ghost nv = node@;
    out.set(at, node);
    proof {
        let t = subtrie(views, lo as int, hi as int, depth as int, at as int);
        assert(all.labels =~= nv.labels);
        assert(all.kids =~= nv.kids);
        assert(all.below =~= below);
        assert(t =~= seq![nv] + below);
        assert forall|k: int| 0 <= k < out.len() implies #[trigger] node_views(out@)[k] == (before
            + t)[k] by {
            if k != at {
                assert(node_views(inner)[k] == (before.push(hole) + below)[k]);
            }
        }
        assert(node_views(inner).len() == node_views(out@).len());
        assert(node_views(out@) =~= before + t);
    }
}

/// The part of a node's size that no offset changes.
pub open spec fn fixed_size(n: NodeView) -> int {
    let terminal = terminal_of(n);
    terminal.len() + 1 + labels_size(n.labels)
}

/// A node's terminal: the payload behind its size, or a size of zero.
pub open spec fn terminal_of(n: NodeView) -> Seq<u8> {
    match n.export {
        Some(e) => crate::util::uleb(e.payload().len()) + e.payload(),
        None => seq![0u8],
    }
}

/// The size of NUL-terminated labels.
pub open spec fn labels_size(labels: Seq<Seq<u8>>) -> int
    decreases labels.len(),
{
    if labels.len() == 0 {
        0
    } else {
        labels_size(labels.drop_last()) + labels.last().len() + 1
    }
}

/// The size of the offsets of the children.
pub open spec fn offsets_size(kids: Seq<int>, offs: Seq<u32>) -> int
    decreases kids.len(),
{
    if kids.len() == 0 {
        0
    } else {
        offsets_size(kids.drop_last(), offs) + crate::util::uleb(offs[kids.last()] as nat).len()
    }
}

/// Where the node `i` starts when the nodes refer to each other by `offs`.
pub open spec fn node_start(nodes: Seq<NodeView>, offs: Seq<u32>, i: int) -> int
    decreases i,
{
    if i <= 0 {
        0
    } else {
        node_start(nodes, offs, i - 1) + fixed_size(nodes[i - 1]) + offsets_size(
            nodes[i - 1].kids,
            offs,
        )
    }
}

/// True when the nodes start where `offs` says.
pub open spec fn is_layout(nodes: Seq<NodeView>, offs: Seq<u32>) -> bool {
    &&& offs.len() == nodes.len()
    &&& forall|i: int| 0 <= i < nodes.len() ==> #[trigger] offs[i] == node_start(nodes, offs, i)
}

/// True when no offset of `a` is above that of `b`.
pub open spec fn below(a: Seq<u32>, b: Seq<u32>) -> bool {
    &&& a.len() == b.len()
    &&& forall|i: int| 0 <= i < a.len() ==> #[trigger] a[i] <= b[i]
}

/// True when `offs` is the smallest layout.
pub open spec fn is_least_layout(nodes: Seq<NodeView>, offs: Seq<u32>) -> bool {
    &&& is_layout(nodes, offs)
    &&& forall|o: Seq<u32>| #[trigger] is_layout(nodes, o) ==> below(offs, o)
}

/// The smallest layout.
pub open spec fn layout_of(nodes: Seq<NodeView>) -> Seq<u32> {
    choose|offs: Seq<u32>| is_least_layout(nodes, offs)
}

/// There is at most one smallest layout.
pub proof fn lemma_least_layout_unique(nodes: Seq<NodeView>, a: Seq<u32>, b: Seq<u32>)
    requires
        is_least_layout(nodes, a),
        is_least_layout(nodes, b),
    ensures
        a == b,
{
    assert(below(a, b));
    assert(below(b, a));
    assert(a =~= b);
}

/// A bound for the size of the first `n` nodes, whatever the offsets are.
pub open spec fn size_bound(nodes: Seq<NodeView>, n: int) -> int
    decreases n,
{
    if n <= 0 {
        0
    } else {
        size_bound(nodes, n - 1) + fixed_size(nodes[n - 1]) + 5 * nodes[n - 1].kids.len()
    }
}

/// True when the children of every node are nodes.
pub open spec fn kids_exist(nodes: Seq<NodeView>) -> bool {
    forall|i: int, k: int|
        0 <= i < nodes.len() && 0 <= k < nodes[i].kids.len() ==> 0
            <= #[trigger] nodes[i].kids[k] < nodes.len()
}

/// True when a node has as many children as labels.
pub open spec fn edges_match(nodes: Seq<NodeView>) -> bool {
    forall|i: int|
        0 <= i < nodes.len() ==> (#[trigger] nodes[i]).kids.len() == nodes[i].labels.len()
}

pub proof fn lemma_subtrie_wf(
    names: Seq<(Seq<u8>, ExportView)>,
    lo: int,
    hi: int,
    depth: int,
    base: int,
)
    ensures
        forall|i: int, k: int|
            0 <= i < subtrie(names, lo, hi, depth, base).len() && 0 <= k < subtrie(
                names,
                lo,
                hi,
                depth,
                base,
            )[i].kids.len() ==> base <= #[trigger] subtrie(names, lo, hi, depth, base)[i].kids[k]
                < base + subtrie(names, lo, hi, depth, base).len(),
        edges_match(subtrie(names, lo, hi, depth, base)),
        subtrie(names, lo, hi, depth, base).len() > 0,
    decreases hi - lo, names[lo].0.len() - depth, 1int,
{
    let t = subtrie(names, lo, hi, depth, base);
    if lo < hi {
        let start = if names[lo].0.len() == depth {
            lo + 1
        } else {
            lo
        };
        lemma_edges_wf(names, start, hi, depth, base + 1);
        let e = edges(names, start, hi, depth, base + 1);
        assert(t.len() == 1 + e.below.len());
        assert forall|i: int, k: int| 0 <= i < t.len() && 0 <= k < t[i].kids.len() implies base
            <= #[trigger] t[i].kids[k] < base + t.len() by {
            if i > 0 {
                assert(t[i] == e.below[i - 1]);
                assert(base + 1 <= e.below[i - 1].kids[k] < base + 1 + e.below.len());
            } else {
                assert(t[0].kids == e.kids);
            }
        }
        assert forall|i: int| 0 <= i < t.len() implies (#[trigger] t[i]).kids.len()
            == t[i].labels.len() by {
            if i > 0 {
                assert(t[i] == e.below[i - 1]);
            }
        }
    }
}

pub proof fn lemma_edges_wf(
    names: Seq<(Seq<u8>, ExportView)>,
    lo: int,
    hi: int,
    depth: int,
    base: int,
)
    ensures
        forall|i: int, k: int|
            0 <= i < edges(names, lo, hi, depth, base).below.len() && 0 <= k < edges(
                names,
                lo,
                hi,
                depth,
                base,
            ).below[i].kids.len() ==> base <= #[trigger] edges(
                names,
                lo,
                hi,
                depth,
                base,
            ).below[i].kids[k] < base + edges(names, lo, hi, depth, base).below.len(),
        edges_match(edges(names, lo, hi, depth, base).below),
        edges(names, lo, hi, depth, base).kids.len() == edges(
            names,
            lo,
            hi,
            depth,
            base,
        ).labels.len(),
        forall|k: int|
            0 <= k < edges(names, lo, hi, depth, base).kids.len() ==> base <= #[trigger] edges(
                names,
                lo,
                hi,
                depth,
                base,
            ).kids[k] < base + edges(names, lo, hi, depth, base).below.len(),
    decreases hi - lo, names[lo].0.len() - depth, 0int,
{
    let g = group_end(names, lo, lo + 1, hi, depth);
    let end = common_end(names[lo].0, names[g - 1].0, depth);
    if lo >= hi || g <= lo || g > hi || end <= depth || end > names[lo].0.len() {
    } else {
        let child = subtrie(names, lo, g, end, base);
        let rest = edges(names, g, hi, depth, base + child.len());
        let all = edges(names, lo, hi, depth, base);
        lemma_subtrie_wf(names, lo, g, end, base);
        lemma_edges_wf(names, g, hi, depth, base + child.len());
        assert forall|i: int, k: int|
            0 <= i < all.below.len() && 0 <= k < all.below[i].kids.len() implies base
            <= #[trigger] all.below[i].kids[k] < base + all.below.len() by {
            if i < child.len() {
                assert(all.below[i] == child[i]);
                assert(child[i].kids[k] < base + child.len());
            } else {
                assert(all.below[i] == rest.below[i - child.len()]);
                assert(rest.below[i - child.len()].kids[k] < base + child.len()
                    + rest.below.len());
            }
        }
        assert forall|i: int| 0 <= i < all.below.len() implies (#[trigger] all.below[i]).kids.len()
            == all.below[i].labels.len() by {
            if i < child.len() {
                assert(all.below[i] == child[i]);
            } else {
                assert(all.below[i] == rest.below[i - child.len()]);
            }
        }
        assert forall|k: int| 0 <= k < all.kids.len() implies base <= #[trigger] all.kids[k] < base
            + all.below.len() by {
            if k > 0 {
                assert(all.kids[k] == rest.kids[k - 1]);
            }
        }
    }
}

/// The encoding of a node.
pub open spec fn node_bytes(n: NodeView, offs: Seq<u32>) -> Seq<u8> {
    terminal_of(n) + seq![(n.kids.len() % 256) as u8] + edge_bytes(n.labels, n.kids, offs)
}

/// The encoding of a node's edges: labels and offsets.
pub open spec fn edge_bytes(labels: Seq<Seq<u8>>, kids: Seq<int>, offs: Seq<u32>) -> Seq<u8>
    decreases kids.len(),
{
    if kids.len() == 0 {
        Seq::empty()
    } else {
        edge_bytes(labels.drop_last(), kids.drop_last(), offs) + labels.last() + seq![0u8]
            + crate::util::uleb(offs[kids.last()] as nat)
    }
}

/// The encoding of the first `n` nodes.
pub open spec fn trie_bytes(nodes: Seq<NodeView>, offs: Seq<u32>, n: int) -> Seq<u8>
    decreases n,
{
    if n <= 0 {
        Seq::empty()
    } else {
        trie_bytes(nodes, offs, n - 1) + node_bytes(nodes[n - 1], offs)
    }
}

/// The encoded export trie of the sorted names.
pub open spec fn export_trie(names: Seq<(Seq<u8>, ExportView)>) -> Seq<u8> {
    if names.len() == 0 {
        Seq::empty()
    } else {
        let nodes = trie_of(names);
        bytes::padded8(trie_bytes(nodes, layout_of(nodes), nodes.len() as int))
    }
}

/// A larger value takes no fewer bytes.
pub proof fn lemma_uleb_len_monotone(a: nat, b: nat)
    requires
        a <= b,
    ensures
        crate::util::uleb(a).len() <= crate::util::uleb(b).len(),
    decreases b,
{
    if a >= 128 {
        lemma_uleb_len_monotone(a / 128, b / 128);
    }
}

proof fn lemma_uleb_len_u32(v: u32)
    ensures
        1 <= crate::util::uleb(v as nat).len() <= 5,
{
    reveal_with_fuel(crate::util::uleb, 6);
}

proof fn lemma_offsets_size(kids: Seq<int>, a: Seq<u32>, b: Seq<u32>)
    requires
        below(a, b),
        forall|k: int| 0 <= k < kids.len() ==> 0 <= #[trigger] kids[k] < a.len(),
    ensures
        0 <= offsets_size(kids, a) <= offsets_size(kids, b) <= 5 * kids.len(),
    decreases kids.len(),
{
    if kids.len() > 0 {
        assert forall|k: int| 0 <= k < kids.drop_last().len() implies 0
            <= #[trigger] kids.drop_last()[k] < a.len() by {
            assert(kids.drop_last()[k] == kids[k]);
        }
        lemma_offsets_size(kids.drop_last(), a, b);
        let k = kids.last();
        assert(kids[kids.len() - 1] == k);
        lemma_uleb_len_monotone(a[k] as nat, b[k] as nat);
        lemma_uleb_len_u32(b[k]);
    }
}

pub proof fn lemma_labels_size(labels: Seq<Seq<u8>>)
    ensures
        labels_size(labels) >= 0,
    decreases labels.len(),
{
    if labels.len() > 0 {
        lemma_labels_size(labels.drop_last());
    }
}

proof fn lemma_node_start(nodes: Seq<NodeView>, a: Seq<u32>, b: Seq<u32>, i: int)
    requires
        kids_exist(nodes),
        below(a, b),
        a.len() == nodes.len(),
        0 <= i <= nodes.len(),
    ensures
        0 <= node_start(nodes, a, i) <= node_start(nodes, b, i) <= size_bound(nodes, i),
        size_bound(nodes, i) <= size_bound(nodes, nodes.len() as int),
    decreases i,
{
    lemma_size_bound(nodes, i);
    if i > 0 {
        lemma_node_start(nodes, a, b, i - 1);
        assert forall|k: int| 0 <= k < nodes[i - 1].kids.len() implies 0
            <= #[trigger] nodes[i - 1].kids[k] < a.len() by {}
        lemma_offsets_size(nodes[i - 1].kids, a, b);
        lemma_labels_size(nodes[i - 1].labels);
    }
}

pub proof fn lemma_size_bound(nodes: Seq<NodeView>, i: int)
    requires
        0 <= i <= nodes.len(),
    ensures
        0 <= size_bound(nodes, i) <= size_bound(nodes, nodes.len() as int),
    decreases nodes.len() - i,
{
    if i < nodes.len() {
        lemma_size_bound(nodes, i + 1);
        lemma_labels_size(nodes[i].labels);
        if i > 0 {
            lemma_size_bound_nonneg(nodes, i);
        }
    } else {
        lemma_size_bound_nonneg(nodes, i);
    }
}

pub proof fn lemma_size_bound_nonneg(nodes: Seq<NodeView>, i: int)
    ensures
        size_bound(nodes, i) >= 0,
    decreases i,
{
    if i > 0 {
        lemma_size_bound_nonneg(nodes, i - 1);
        lemma_labels_size(nodes[i - 1].labels);
    }
}

/// The fixed size of one node, or `None` if it is too large.
fn measure_node(node: &TrieNode) -> (r: Option<u64>)
    ensures
        match r {
            Some(n) => n == fixed_size(node@) && n <= 0xffff_ffff,
            None => fixed_size(node@) > u32::MAX,
        },
{
    proof {
        lemma_labels_size(node@.labels);
    }
    let terminal: u64 = match &node.export {
        None => 1,
        Some(e) => match e.terminal_size() {
            Some(n) => {
                if n > 0xffff_ffff {
                    return None;
                }
                uleb_len(n) as u64 + n
            },
            None => return None,
        },
    };
    let mut size: u64 = terminal + 1;
    let mut i: usize = 0;
    let ghost labels = bytes::views(node.labels@);
    assert(labels.take(0) =~= Seq::<Seq<u8>>::empty());
    while i < node.labels.len()
        invariant
            i <= node.labels.len(),
            labels == bytes::views(node.labels@),
            terminal == terminal_of(node@).len(),
            size == terminal + 1 + labels_size(labels.take(i as int)),
            size <= 0x1_0000_0000 + 20 + i * 0x1_0000_0000,
            size <= 0x1_0000_0000 + 20 || i > 0 && size <= 0x1_0000_0000,
        decreases node.labels.len() - i,
    {
        if size > 0xffff_ffff {
            proof {
                lemma_labels_take(labels, i as int);
            }
            return None;
        }
        let len: u64 = node.labels[i].len() as u64;
        assert(labels.take(i + 1).drop_last() =~= labels.take(i as int));
        assert(labels[i as int] == node.labels[i as int]@);
        proof {
            lemma_labels_take(labels, i + 1);
        }
        if len > 0xffff_ffff - size {
            return None;
        }
        size = size + len + 1;
        i += 1;
    }
    assert(labels.take(i as int) =~= labels);
    if size > 0xffff_ffff {
        return None;
    }
    Some(size)
}

proof fn lemma_labels_take(labels: Seq<Seq<u8>>, n: int)
    requires
        0 <= n <= labels.len(),
    ensures
        labels_size(labels.take(n)) <= labels_size(labels),
    decreases labels.len() - n,
{
    if n < labels.len() {
        lemma_labels_take(labels, n + 1);
        assert(labels.take(n + 1).drop_last() =~= labels.take(n));
    } else {
        assert(labels.take(n) =~= labels);
    }
}

/// The fixed sizes of the nodes, or `None` if the trie may be too large.
fn measure_nodes(nodes: &Vec<TrieNode>) -> (r: Option<Vec<u64>>)
    ensures
        match r {
            Some(v) => v.len() == nodes.len() && (forall|i: int|
                0 <= i < v.len() ==> #[trigger] v[i] == fixed_size(node_views(nodes@)[i]) && v[i]
                    <= 0xffff_ffff) && size_bound(node_views(nodes@), nodes.len() as int)
                <= u32::MAX,
            None => size_bound(node_views(nodes@), nodes.len() as int) > u32::MAX,
        },
{
    let ghost views = node_views(nodes@);
    let mut out: Vec<u64> = Vec::new();
    let mut total: u64 = 0;
    let mut i: usize = 0;
    while i < nodes.len()
        invariant
            i <= nodes.len(),
            views == node_views(nodes@),
            out.len() == i,
            forall|k: int|
                0 <= k < i ==> #[trigger] out[k] == fixed_size(views[k]) && out[k] <= 0xffff_ffff,
            total == size_bound(views, i as int),
            total <= 0xffff_ffff,
        decreases nodes.len() - i,
    {
        assert(views[i as int] == nodes[i as int]@);
        proof {
            lemma_size_bound(views, i + 1);
            lemma_size_bound_nonneg(views, i as int);
        }
        let n: u64 = match measure_node(&nodes[i]) {
            Some(n) => n,
            None => return None,
        };
        let kids: u64 = nodes[i].kids.len() as u64;
        if kids > 0xffff_ffff || total + n + 5 * kids > 0xffff_ffff {
            return None;
        }
        total = total + n + 5 * kids;
        out.push(n);
        i += 1;
    }
    Some(out)
}

/// Where each node starts when the nodes refer to each other by `offs`.
fn next_offsets(nodes: &Vec<TrieNode>, fixed: &Vec<u64>, offs: &Vec<u32>) -> (r: Vec<u32>)
    requires
        kids_exist(node_views(nodes@)),
        fixed.len() == nodes.len(),
        offs.len() == nodes.len(),
        forall|i: int|
            0 <= i < nodes.len() ==> #[trigger] fixed[i] == fixed_size(node_views(nodes@)[i])
                && fixed[i] <= 0xffff_ffff,
        size_bound(node_views(nodes@), nodes.len() as int) <= u32::MAX,
    ensures
        r.len() == nodes.len(),
        forall|i: int|
            0 <= i < r.len() ==> #[trigger] r[i] == node_start(node_views(nodes@), offs@, i),
{
    let ghost views = node_views(nodes@);
    let mut out: Vec<u32> = Vec::new();
    let mut off: u64 = 0;
    let mut i: usize = 0;
    while i < nodes.len()
        invariant
            i <= nodes.len(),
            views == node_views(nodes@),
            kids_exist(views),
            fixed.len() == nodes.len(),
            offs.len() == nodes.len(),
            forall|k: int|
                0 <= k < nodes.len() ==> #[trigger] fixed[k] == fixed_size(views[k]) && fixed[k]
                    <= 0xffff_ffff,
            size_bound(views, nodes.len() as int) <= u32::MAX,
            off == node_start(views, offs@, i as int),
            off <= 0xffff_ffff,
            out.len() == i,
            forall|k: int| 0 <= k < i ==> #[trigger] out[k] == node_start(views, offs@, k),
        decreases nodes.len() - i,
    {
        assert(views[i as int] == nodes[i as int]@);
        proof {
            lemma_node_start(views, offs@, offs@, i + 1);
        }
        out.push(off as u32);
        let ghost start = off;
        off = off + fixed[i];
        let mut k: usize = 0;
        let ghost kids = views[i as int].kids;
        assert(kids.take(0) =~= Seq::<int>::empty());
        while k < nodes[i].kids.len()
            invariant
                i < nodes.len(),
                k <= nodes[i as int].kids.len(),
                views == node_views(nodes@),
                kids == views[i as int].kids,
                views[i as int] == nodes[i as int]@,
                kids_exist(views),
                offs.len() == nodes.len(),
                off == start + fixed[i as int] + offsets_size(kids.take(k as int), offs@),
                start + fixed[i as int] + offsets_size(kids, offs@) <= u32::MAX,
            decreases nodes[i as int].kids.len() - k,
        {
            assert(kids[k as int] == nodes[i as int].kids[k as int]);
            assert(0 <= views[i as int].kids[k as int] < views.len());
            assert(kids.take(k + 1).drop_last() =~= kids.take(k as int));
            proof {
                lemma_offsets_take(kids, offs@, k + 1);
            }
            off = off + uleb_len(offs[nodes[i].kids[k]] as u64) as u64;
            k += 1;
        }
        assert(kids.take(k as int) =~= kids);
        i += 1;
    }
    out
}

proof fn lemma_offsets_take(kids: Seq<int>, offs: Seq<u32>, n: int)
    requires
        0 <= n <= kids.len(),
    ensures
        offsets_size(kids.take(n), offs) <= offsets_size(kids, offs),
    decreases kids.len() - n,
{
    if n < kids.len() {
        lemma_offsets_take(kids, offs, n + 1);
        assert(kids.take(n + 1).drop_last() =~= kids.take(n));
    } else {
        assert(kids.take(n) =~= kids);
    }
}

/// How far the offsets can still grow.
spec fn slack(offs: Seq<u32>) -> nat
    decreases offs.len(),
{
    if offs.len() == 0 {
        0
    } else {
        slack(offs.drop_last()) + (u32::MAX - offs.last()) as nat
    }
}

proof fn lemma_slack(a: Seq<u32>, b: Seq<u32>)
    requires
        below(a, b),
    ensures
        slack(b) <= slack(a),
        a != b ==> slack(b) < slack(a),
    decreases a.len(),
{
    if a.len() > 0 {
        assert(a[a.len() - 1] <= b[b.len() - 1]);
        assert forall|i: int| 0 <= i < a.drop_last().len() implies #[trigger] a.drop_last()[i]
            <= b.drop_last()[i] by {
            assert(a[i] <= b[i]);
        }
        lemma_slack(a.drop_last(), b.drop_last());
        if a.drop_last() == b.drop_last() && a.last() == b.last() {
            assert(a =~= a.drop_last().push(a.last()));
            assert(b =~= b.drop_last().push(b.last()));
        }
    } else {
        assert(a =~= b);
    }
}

/// Starting from offsets that are too small, the nodes move up to the
/// smallest layout.
proof fn lemma_offsets_settle(nodes: Seq<NodeView>, offs: Seq<u32>)
    requires
        kids_exist(nodes),
        offs.len() == nodes.len(),
        size_bound(nodes, nodes.len() as int) <= u32::MAX,
        forall|i: int| 0 <= i < nodes.len() ==> #[trigger] offs[i] <= node_start(nodes, offs, i),
        forall|o: Seq<u32>| #[trigger] is_layout(nodes, o) ==> below(offs, o),
    ensures
        exists|o: Seq<u32>| is_least_layout(nodes, o),
    decreases slack(offs),
{
    let next = Seq::new(nodes.len(), |i: int| node_start(nodes, offs, i) as u32);
    assert forall|i: int| 0 <= i < nodes.len() implies #[trigger] next[i] == node_start(
        nodes,
        offs,
        i,
    ) by {
        lemma_node_start(nodes, offs, offs, i);
    }
    if next == offs {
        assert(is_layout(nodes, offs));
        assert(is_least_layout(nodes, offs));
    } else {
        assert(below(offs, next));
        assert forall|i: int| 0 <= i < nodes.len() implies #[trigger] next[i] <= node_start(
            nodes,
            next,
            i,
        ) by {
            lemma_node_start(nodes, offs, next, i);
        }
        assert forall|o: Seq<u32>| #[trigger] is_layout(nodes, o) implies below(next, o) by {
            assert forall|i: int| 0 <= i < next.len() implies #[trigger] next[i] <= o[i] by {
                lemma_node_start(nodes, offs, o, i);
                assert(o[i] == node_start(nodes, o, i));
            }
        }
        lemma_slack(offs, next);
        lemma_offsets_settle(nodes, next);
    }
}

/// A trie whose size is bounded has a smallest layout.
pub proof fn lemma_least_layout_exists(nodes: Seq<NodeView>)
    requires
        kids_exist(nodes),
        size_bound(nodes, nodes.len() as int) <= u32::MAX,
    ensures
        is_least_layout(nodes, layout_of(nodes)),
{
    let zero = Seq::new(nodes.len(), |i: int| 0u32);
    assert forall|i: int| 0 <= i < nodes.len() implies #[trigger] zero[i] <= node_start(
        nodes,
        zero,
        i,
    ) by {
        lemma_node_start(nodes, zero, zero, i);
    }
    lemma_offsets_settle(nodes, zero);
}

fn same_offsets(a: &Vec<u32>, b: &Vec<u32>) -> (r: bool)
    requires
        a.len() == b.len(),
    ensures
        r == (a@ == b@),
{
    let mut i: usize = 0;
    while i < a.len()
        invariant
            i <= a.len(),
            a.len() == b.len(),
            forall|k: int| 0 <= k < i ==> a[k] == b[k],
        decreases a.len() - i,
    {
        if a[i] != b[i] {
            return false;
        }
        i += 1;
    }
    assert(a@ =~= b@);
    true
}

/// Assigns node offsets until they stop moving.
fn assign_offsets(nodes: &Vec<TrieNode>, fixed: &Vec<u64>) -> (r: Vec<u32>)
    requires
        kids_exist(node_views(nodes@)),
        fixed.len() == nodes.len(),
        forall|i: int|
            0 <= i < nodes.len() ==> #[trigger] fixed[i] == fixed_size(node_views(nodes@)[i])
                && fixed[i] <= 0xffff_ffff,
        size_bound(node_views(nodes@), nodes.len() as int) <= u32::MAX,
    ensures
        is_least_layout(node_views(nodes@), r@),
        r@ == layout_of(node_views(nodes@)),
{
    let ghost views = node_views(nodes@);
    let mut offs: Vec<u32> = Vec::new();
    while offs.len() < nodes.len()
        invariant
            offs.len() <= nodes.len(),
            forall|i: int| 0 <= i < offs.len() ==> #[trigger] offs[i] == 0,
        decreases nodes.len() - offs.len(),
    {
        offs.push(0);
    }
    proof {
        assert forall|i: int| 0 <= i < nodes.len() implies #[trigger] offs[i] <= node_start(
            views,
            offs@,
            i,
        ) by {
            lemma_node_start(views, offs@, offs@, i);
        }
    }
    loop
        invariant
            views == node_views(nodes@),
            kids_exist(views),
            fixed.len() == nodes.len(),
            offs.len() == nodes.len(),
            forall|i: int|
                0 <= i < nodes.len() ==> #[trigger] fixed[i] == fixed_size(views[i]) && fixed[i]
                    <= 0xffff_ffff,
            size_bound(views, nodes.len() as int) <= u32::MAX,
            forall|i: int|
                0 <= i < nodes.len() ==> #[trigger] offs[i] <= node_start(views, offs@, i),
            forall|o: Seq<u32>| #[trigger] is_layout(views, o) ==> below(offs@, o),
        decreases slack(offs@),
    {
        let next: Vec<u32> = next_offsets(nodes, fixed, &offs);
        if same_offsets(&next, &offs) {
            proof {
                assert(is_layout(views, offs@)) by {
                    assert forall|i: int| 0 <= i < views.len() implies #[trigger] offs@[i]
                        == node_start(views, offs@, i) by {
                        assert(next[i] == node_start(views, offs@, i));
                    }
                }
                assert(is_least_layout(views, offs@));
                lemma_least_layout_unique(views, offs@, layout_of(views));
            }
            return offs;
        }
        proof {
            assert(below(offs@, next@)) by {
                assert forall|i: int| 0 <= i < offs.len() implies #[trigger] offs@[i]
                    <= next@[i] by {
                    assert(next[i] == node_start(views, offs@, i));
                }
            }
            assert forall|i: int| 0 <= i < nodes.len() implies #[trigger] next[i] <= node_start(
                views,
                next@,
                i,
            ) by {
                lemma_node_start(views, offs@, next@, i);
            }
            assert forall|o: Seq<u32>| #[trigger] is_layout(views, o) implies below(
                next@,
                o,
            ) by {
                assert forall|i: int| 0 <= i < next.len() implies #[trigger] next@[i] <= o[i] by {
                    lemma_node_start(views, offs@, o, i);
                    assert(o[i] == node_start(views, o, i));
                    assert(next[i] == node_start(views, offs@, i));
                }
            }
            lemma_slack(offs@, next@);
        }
        offs = next;
    }
}

/// Appends the encoding of a node.
fn push_node(buf: &mut Vec<u8>, node: &TrieNode, offs: &Vec<u32>)
    requires
        node.kids.len() == node.labels.len(),
        forall|k: int| 0 <= k < node.kids.len() ==> #[trigger] node.kids[k] < offs.len(),
        fixed_size(node@) <= u32::MAX,
    ensures
        final(buf)@ == old(buf)@ + node_bytes(node@, offs@),
{
    let ghost before = buf@;
    let ghost n = node@;
    proof {
        lemma_labels_size(n.labels);
    }
    match &node.export {
        None => {
            buf.push(0);
        },
        Some(e) => {
            let size: u64 = match e.terminal_size() {
                Some(s) => s,
                None => 0,
            };
            write_uleb(buf, size);
            e.push_payload(buf);
        },
    }
    assert(buf@ =~= before + terminal_of(n));
    buf.push((node.kids.len() % 256) as u8);
    let ghost head = buf@;
    let mut k: usize = 0;
    assert(n.kids.take(0) =~= Seq::<int>::empty());
    assert(buf@ =~= head + edge_bytes(n.labels.take(0), n.kids.take(0), offs@));
    while k < node.kids.len()
        invariant
            k <= node.kids.len(),
            n == node@,
            node.kids.len() == node.labels.len(),
            forall|j: int| 0 <= j < node.kids.len() ==> #[trigger] node.kids[j] < offs.len(),
            buf@ == head + edge_bytes(n.labels.take(k as int), n.kids.take(k as int), offs@),
        decreases node.kids.len() - k,
    {
        let ghost prior = buf@;
        bytes::append(buf, node.labels[k].as_slice());
        buf.push(0);
        write_uleb(buf, offs[node.kids[k]] as u64);
        proof {
            assert(n.labels.take(k + 1).drop_last() =~= n.labels.take(k as int));
            assert(n.kids.take(k + 1).drop_last() =~= n.kids.take(k as int));
            assert(n.labels[k as int] == node.labels[k as int]@);
            assert(buf@ =~= head + edge_bytes(n.labels.take(k + 1), n.kids.take(k + 1), offs@));
        }
        k += 1;
    }
    assert(n.labels.take(k as int) =~= n.labels);
    assert(n.kids.take(k as int) =~= n.kids);
    assert(buf@ =~= before + node_bytes(n, offs@));
}

/// Encodes the export trie of the names, which are sorted; `None` if it may
/// be too large for 32-bit offsets.
pub fn encode_export_trie(names: &Vec<Exported>) -> (r: Option<Vec<u8>>)
    requires
        names_increase(exported_views(names@)),
    ensures
        match r {
            Some(buf) => buf@ == export_trie(exported_views(names@)) && (names.len() == 0
                || size_bound(
                trie_of(exported_views(names@)),
                trie_of(exported_views(names@)).len() as int,
            ) <= u32::MAX),
            None => names.len() > 0 && size_bound(
                trie_of(exported_views(names@)),
                trie_of(exported_views(names@)).len() as int,
            ) > u32::MAX,
        },
{
    let mut buf: Vec<u8> = Vec::new();
    if names.len() == 0 {
        assert(buf@ =~= Seq::<u8>::empty());
        return Some(buf);
    }
    let ghost views = exported_views(names@);
    let mut nodes: Vec<TrieNode> = Vec::new();
    proof {
        assert forall|i: int| 0 <= i < views.len() implies ({
            let n = (#[trigger] views[i]).0;
            0 <= n.len() && n.take(0) == views[0].0.take(0)
        }) by {
            assert(views[i].0.take(0) =~= views[0].0.take(0));
        }
    }
    build_trie(names, 0, names.len(), 0, &mut nodes);
    let ghost nv = node_views(nodes@);
    proof {
        assert(nv =~= trie_of(views));
        lemma_subtrie_wf(views, 0, views.len() as int, 0, 0);
    }
    let fixed: Vec<u64> = match measure_nodes(&nodes) {
        Some(f) => f,
        None => return None,
    };
    let offs: Vec<u32> = assign_offsets(&nodes, &fixed);
    let mut i: usize = 0;
    while i < nodes.len()
        invariant
            i <= nodes.len(),
            nv == node_views(nodes@),
            kids_exist(nv),
            edges_match(nv),
            offs.len() == nodes.len(),
            fixed.len() == nodes.len(),
            forall|k: int|
                0 <= k < nodes.len() ==> #[trigger] fixed[k] == fixed_size(nv[k]) && fixed[k]
                    <= 0xffff_ffff,
            buf@ == trie_bytes(nv, offs@, i as int),
        decreases nodes.len() - i,
    {
        assert(nv[i as int] == nodes[i as int]@);
        assert(fixed[i as int] == fixed_size(nv[i as int]));
        assert forall|k: int| 0 <= k < nodes[i as int].kids.len() implies #[trigger] nodes[i as int].kids[k]
            < offs.len() by {
            assert(nv[i as int].kids[k] < nv.len());
        }
        push_node(&mut buf, &nodes[i], &offs);
        i += 1;
    }
    bytes::pad8(&mut buf);
    Some(buf)
}

} // verus!
