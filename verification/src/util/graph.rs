//! Reachability in a graph given by lists of successors.
use vstd::prelude::*;

verus! {

/// True when `to` is a successor of `from`.
pub open spec fn has_edge(edges: Seq<Seq<usize>>, from: int, to: int) -> bool {
    0 <= from < edges.len() && exists|k: int|
        0 <= k < edges[from].len() && #[trigger] edges[from][k] == to
}

/// True when `path` is a path from a root to `i`.
pub open spec fn is_path(edges: Seq<Seq<usize>>, roots: Seq<usize>, path: Seq<int>, i: int) -> bool {
    &&& path.len() > 0
    &&& path.last() == i
    &&& exists|r: int| 0 <= r < roots.len() && #[trigger] roots[r] == path[0]
    &&& forall|k: int|
        0 <= k < path.len() - 1 ==> has_edge(edges, #[trigger] path[k], path[k + 1])
}

/// True when a path leads from a root to `i`.
pub open spec fn reachable(edges: Seq<Seq<usize>>, roots: Seq<usize>, i: int) -> bool {
    exists|path: Seq<int>| is_path(edges, roots, path, i)
}

/// True when the edges and roots stay inside a graph of `n` nodes.
pub open spec fn in_graph(edges: Seq<Seq<usize>>, roots: Seq<usize>, n: int) -> bool {
    &&& edges.len() == n
    &&& forall|i: int, k: int|
        0 <= i < n && 0 <= k < edges[i].len() ==> #[trigger] edges[i][k] < n
    &&& forall|r: int| 0 <= r < roots.len() ==> #[trigger] roots[r] < n
}

/// Lists of successors as mathematical values.
pub open spec fn lists(v: Seq<Vec<usize>>) -> Seq<Seq<usize>> {
    v.map_values(|l: Vec<usize>| l@)
}

/// Every root is reachable.
pub proof fn lemma_root_reachable(edges: Seq<Seq<usize>>, roots: Seq<usize>, r: int)
    requires
        0 <= r < roots.len(),
    ensures
        reachable(edges, roots, roots[r] as int),
{
    let path = seq![roots[r] as int];
    assert(roots[r] == path[0]);
    assert(is_path(edges, roots, path, roots[r] as int));
}

/// A successor of a reachable node is reachable.
pub proof fn lemma_edge_reachable(edges: Seq<Seq<usize>>, roots: Seq<usize>, from: int, to: int)
    requires
        reachable(edges, roots, from),
        has_edge(edges, from, to),
    ensures
        reachable(edges, roots, to),
{
    let path = choose|path: Seq<int>| is_path(edges, roots, path, from);
    let next = path.push(to);
    assert(next[0] == path[0]);
    assert forall|k: int| 0 <= k < next.len() - 1 implies has_edge(
        edges,
        #[trigger] next[k],
        next[k + 1],
    ) by {
        if k < path.len() - 1 {
            assert(has_edge(edges, path[k], path[k + 1]));
        }
    }
    assert(is_path(edges, roots, next, to));
}

/// A set that holds the roots and the successors of its nodes holds every
/// reachable node.
pub proof fn lemma_closed_set(
    edges: Seq<Seq<usize>>,
    roots: Seq<usize>,
    live: Seq<bool>,
    path: Seq<int>,
    i: int,
)
    requires
        in_graph(edges, roots, live.len() as int),
        forall|r: int| 0 <= r < roots.len() ==> live[#[trigger] roots[r] as int],
        forall|a: int, b: int|
            0 <= a < live.len() && live[a] && #[trigger] has_edge(edges, a, b) ==> live[b],
        is_path(edges, roots, path, i),
    ensures
        0 <= i < live.len(),
        live[i],
    decreases path.len(),
{
    if path.len() == 1 {
        let r = choose|r: int| 0 <= r < roots.len() && #[trigger] roots[r] == path[0];
        assert(live[roots[r] as int]);
    } else {
        let shorter = path.drop_last();
        let from = shorter.last();
        assert(shorter[0] == path[0]);
        assert forall|k: int| 0 <= k < shorter.len() - 1 implies has_edge(
            edges,
            #[trigger] shorter[k],
            shorter[k + 1],
        ) by {
            assert(has_edge(edges, path[k], path[k + 1]));
        }
        assert(is_path(edges, roots, shorter, from));
        lemma_closed_set(edges, roots, live, shorter, from);
        assert(has_edge(edges, path[path.len() - 2], path[path.len() - 1]));
        let k = choose|k: int| 0 <= k < edges[from].len() && #[trigger] edges[from][k] == i;
        assert(edges[from][k] < live.len());
    }
}

/// "Found from no other node."
pub const ROOT: usize = usize::MAX;

/// What a walk over a graph has found.
#[derive(Debug)]
pub struct Walk {
    /// Which nodes are reachable.
    pub live: Vec<bool>,
    /// The nodes in the order in which they were found.
    pub found: Vec<usize>,
    /// The node from which each found node was found; `ROOT` for roots.
    pub pred: Vec<usize>,
}

/// True when `pred` says from which earlier node each node was found.
pub open spec fn is_found_order(
    edges: Seq<Seq<usize>>,
    roots: Seq<usize>,
    found: Seq<usize>,
    pred: Seq<usize>,
) -> bool {
    forall|k: int|
        0 <= k < found.len() ==> {
            let i = #[trigger] found[k];
            if pred[i as int] == ROOT {
                roots.contains(i)
            } else {
                has_edge(edges, pred[i as int] as int, i as int) && exists|j: int|
                    0 <= j < k && #[trigger] found[j] == pred[i as int]
            }
        }
}

/// What holds of a walk at any time.
pub open spec fn walk_so_far(
    edges: Seq<Seq<usize>>,
    roots: Seq<usize>,
    w: Walk,
    n: int,
) -> bool {
    &&& w.live.len() == n
    &&& w.pred.len() == n
    &&& n < usize::MAX
    &&& forall|i: int|
        0 <= i < n ==> (#[trigger] w.live[i] <==> w.found@.contains(i as usize))
    &&& forall|k: int| 0 <= k < w.found.len() ==> (#[trigger] w.found[k]) < n
    &&& w.found@.no_duplicates()
    &&& forall|i: int| 0 <= i < n && #[trigger] w.live[i] ==> reachable(edges, roots, i)
    &&& is_found_order(edges, roots, w.found@, w.pred@)
}

/// How far a walk has come: the nodes in the order in which they were found,
/// the node from which each was found, and the stack of nodes whose
/// successors are still to be looked at.
#[verifier::ext_equal]
pub struct Progress {
    pub found: Seq<usize>,
    pub pred: Seq<usize>,
    pub stack: Seq<usize>,
}

/// The walk after it has come across `i` from the node `from`: a node that
/// is new is found and goes on the stack.
pub open spec fn noted(p: Progress, i: usize, from: usize) -> Progress {
    if p.found.contains(i) {
        p
    } else {
        Progress {
            found: p.found.push(i),
            pred: p.pred.update(i as int, from),
            stack: p.stack.push(i),
        }
    }
}

/// The walk after it has come across the first `k` nodes of a list.
pub open spec fn noted_to(p: Progress, list: Seq<usize>, from: usize, k: int) -> Progress
    decreases k,
{
    if k <= 0 {
        p
    } else {
        noted(noted_to(p, list, from, k - 1), list[k - 1], from)
    }
}

/// The walk before its first step.
pub open spec fn no_progress(n: nat) -> Progress {
    Progress { found: Seq::empty(), pred: Seq::new(n, |i: int| ROOT), stack: Seq::empty() }
}

/// The walk after it has taken the top node off the stack and looked at the
/// successors of that node in order.
pub open spec fn stepped(edges: Seq<Seq<usize>>, p: Progress) -> Progress {
    if p.stack.len() == 0 {
        p
    } else {
        let id = p.stack.last();
        let list = edges[id as int];
        noted_to(Progress { stack: p.stack.drop_last(), ..p }, list, id, list.len() as int)
    }
}

/// The walk that starts with the roots in order, after a number of steps.
pub open spec fn progress(edges: Seq<Seq<usize>>, roots: Seq<usize>, steps: nat) -> Progress
    decreases steps,
{
    if steps == 0 {
        noted_to(no_progress(edges.len()), roots, ROOT, roots.len() as int)
    } else {
        stepped(edges, progress(edges, roots, (steps - 1) as nat))
    }
}

/// True when the walk has nothing left to do after `steps` steps and has
/// then found what `w` says.
pub open spec fn ends_after(
    edges: Seq<Seq<usize>>,
    roots: Seq<usize>,
    w: Walk,
    steps: nat,
) -> bool {
    let p = progress(edges, roots, steps);
    p.stack.len() == 0 && w.found@ == p.found && w.pred@ == p.pred
}

/// What holds of a walk that has come to its end.
pub open spec fn walk_ok(edges: Seq<Seq<usize>>, roots: Seq<usize>, w: Walk, n: int) -> bool {
    &&& walk_so_far(edges, roots, w, n)
    &&& exists|steps: nat| ends_after(edges, roots, w, steps)
}

proof fn lemma_ended(edges: Seq<Seq<usize>>, roots: Seq<usize>, a: nat, b: nat)
    requires
        a <= b,
        progress(edges, roots, a).stack.len() == 0,
    ensures
        progress(edges, roots, b) == progress(edges, roots, a),
    decreases b,
{
    if a < b {
        lemma_ended(edges, roots, a, (b - 1) as nat);
    }
}

/// The walk is the same every time: over the same graph from the same roots
/// it finds the same nodes in the same order, each from the same node.
pub proof fn lemma_walk_unique(
    edges: Seq<Seq<usize>>,
    roots: Seq<usize>,
    v: Walk,
    w: Walk,
    n: int,
)
    requires
        walk_ok(edges, roots, v, n),
        walk_ok(edges, roots, w, n),
    ensures
        v.found@ == w.found@,
        v.pred@ == w.pred@,
        v.live@ == w.live@,
{
    let a = choose|steps: nat| ends_after(edges, roots, v, steps);
    let b = choose|steps: nat| ends_after(edges, roots, w, steps);
    if a <= b {
        lemma_ended(edges, roots, a, b);
    } else {
        lemma_ended(edges, roots, b, a);
    }
    assert forall|i: int| 0 <= i < n implies v.live@[i] == w.live@[i] by {
        assert(v.live[i] <==> v.found@.contains(i as usize));
        assert(w.live[i] <==> w.found@.contains(i as usize));
    }
    assert(v.live@ =~= w.live@);
}

/// Where an executing walk stands.
spec fn at(w: Walk, stack: Seq<usize>) -> Progress {
    Progress { found: w.found@, pred: w.pred@, stack }
}

/// Marks a node.
fn mark(
    w: &mut Walk,
    stack: &mut Vec<usize>,
    i: usize,
    from: usize,
    Ghost(edges): Ghost<Seq<Seq<usize>>>,
    Ghost(roots): Ghost<Seq<usize>>,
)
    requires
        walk_so_far(edges, roots, *old(w), old(w).live.len() as int),
        i < old(w).live.len(),
        from == ROOT ==> roots.contains(i),
        from != ROOT ==> has_edge(edges, from as int, i as int) && from < old(w).live.len()
            && old(w).live[from as int],
        reachable(edges, roots, i as int),
    ensures
        walk_so_far(edges, roots, *final(w), old(w).live.len() as int),
        final(w).live[i as int],
        forall|k: int| 0 <= k < old(w).live.len() && old(w).live[k] ==> final(w).live[k],
        forall|k: int|
            0 <= k < old(w).live.len() && k != i ==> final(w).live[k] == old(w).live[k],
        if old(w).live[i as int] {
            final(stack)@ == old(stack)@ && *final(w) == *old(w)
        } else {
            final(stack)@ == old(stack)@.push(i) && final(w).found@ == old(w).found@.push(i)
        },
        at(*final(w), final(stack)@) == noted(at(*old(w), old(stack)@), i, from),
{
    proof {
        assert(w.live[i as int] <==> w.found@.contains(i));
    }
    if !w.live[i] {
        let ghost before = *w;
        w.live.set(i, true);
        w.pred.set(i, from);
        w.found.push(i);
        stack.push(i);
        proof {
            let n = before.live.len() as int;
            assert(!before.found@.contains(i));
            assert forall|k: int| 0 <= k < n implies (#[trigger] w.live[k] <==> w.found@.contains(
                k as usize,
            )) by {
                if k == i {
                    assert(w.found@[before.found.len() as int] == i);
                } else {
                    if before.live[k] {
                        let j = choose|j: int|
                            0 <= j < before.found.len() && before.found@[j] == k as usize;
                        assert(w.found@[j] == k as usize);
                    }
                    if w.found@.contains(k as usize) {
                        let j = choose|j: int|
                            0 <= j < w.found.len() && w.found@[j] == k as usize;
                        assert(before.found@[j] == k as usize);
                    }
                }
            }
            assert forall|k: int| 0 <= k < w.found.len() implies (#[trigger] w.found[k]) < n by {
                if k < before.found.len() {
                    assert(before.found[k] < n);
                }
            }
            assert(w.found@.no_duplicates()) by {
                assert forall|a: int, b: int|
                    0 <= a < w.found.len() && 0 <= b < w.found.len() && a != b implies w.found@[a]
                    != w.found@[b] by {
                    if a < before.found.len() && b < before.found.len() {
                        assert(before.found@[a] != before.found@[b]);
                    } else if a < before.found.len() {
                        assert(before.found@.contains(before.found@[a]));
                    } else if b < before.found.len() {
                        assert(before.found@.contains(before.found@[b]));
                    }
                }
            }
            assert(is_found_order(edges, roots, w.found@, w.pred@)) by {
                assert forall|k: int| 0 <= k < w.found.len() implies ({
                    let x = #[trigger] w.found@[k];
                    if w.pred@[x as int] == ROOT {
                        roots.contains(x)
                    } else {
                        has_edge(edges, w.pred@[x as int] as int, x as int) && exists|j: int|
                            0 <= j < k && #[trigger] w.found@[j] == w.pred@[x as int]
                    }
                }) by {
                    let x = w.found@[k];
                    if k < before.found.len() {
                        assert(before.found@[k] == x);
                        assert(before.found@.contains(x));
                        assert(x != i);
                        assert(w.pred@[x as int] == before.pred@[x as int]);
                        if before.pred@[x as int] != ROOT {
                            let j = choose|j: int|
                                0 <= j < k && #[trigger] before.found@[j]
                                    == before.pred@[x as int];
                            assert(w.found@[j] == w.pred@[x as int]);
                        }
                    } else if from != ROOT {
                        assert(before.live[from as int]);
                        assert(before.found@.contains(from));
                        let j = choose|j: int|
                            0 <= j < before.found.len() && before.found@[j] == from;
                        assert(w.found@[j] == from);
                    }
                }
            }
        }
    }
}

/// True when every live node but those on the stack has only live
/// successors.
pub open spec fn closed_but(edges: Seq<Seq<usize>>, live: Seq<bool>, stack: Seq<usize>) -> bool {
    forall|a: int, b: int|
        0 <= a < live.len() && live[a] && !stack.contains(a as usize) && #[trigger] has_edge(
            edges,
            a,
            b,
        ) ==> live[b]
}

/// Finds all nodes that are reachable from the roots, by a depth-first walk
/// with a stack.
pub fn walk(edges: &Vec<Vec<usize>>, roots: &Vec<usize>) -> (w: Walk)
    requires
        in_graph(lists(edges@), roots@, edges.len() as int),
        edges.len() < usize::MAX,
    ensures
        w.live.len() == edges.len(),
        forall|i: int|
            0 <= i < edges.len() ==> #[trigger] w.live[i] == reachable(
                lists(edges@),
                roots@,
                i,
            ),
        walk_ok(lists(edges@), roots@, w, edges.len() as int),
{
    let n: usize = edges.len();
    let ghost ev = lists(edges@);
    let ghost rv = roots@;
    let mut live: Vec<bool> = Vec::new();
    let mut pred: Vec<usize> = Vec::new();
    while live.len() < n
        invariant
            live.len() <= n,
            pred.len() == live.len(),
            forall|i: int| 0 <= i < live.len() ==> !#[trigger] live[i],
            forall|i: int| 0 <= i < pred.len() ==> #[trigger] pred[i] == ROOT,
        decreases n - live.len(),
    {
        live.push(false);
        pred.push(ROOT);
    }
    let mut w = Walk { live, found: Vec::new(), pred };
    let mut stack: Vec<usize> = Vec::new();
    let mut r: usize = 0;
    assert(at(w, stack@) =~= no_progress(ev.len()));
    while r < roots.len()
        invariant
            r <= roots.len(),
            n == edges.len(),
            n < usize::MAX,
            rv == roots@,
            ev == lists(edges@),
            in_graph(ev, rv, n as int),
            walk_so_far(ev, rv, w, n as int),
            stack@ == w.found@,
            at(w, stack@) == noted_to(no_progress(ev.len()), rv, ROOT, r as int),
            forall|k: int| 0 <= k < r ==> w.live[#[trigger] rv[k] as int],
        decreases roots.len() - r,
    {
        proof {
            lemma_root_reachable(ev, rv, r as int);
            assert(rv.contains(rv[r as int]));
        }
        mark(&mut w, &mut stack, roots[r], ROOT, Ghost(ev), Ghost(rv));
        r += 1;
    }
    proof {
        assert forall|a: int, b: int|
            0 <= a < n && w.live[a] && !stack@.contains(a as usize) && #[trigger] has_edge(
                ev,
                a,
                b,
            ) implies w.live[b] by {
            assert(w.found@.contains(a as usize));
        }
    }
    proof {
        lemma_distinct_len(w.found@, n as int);
    }
    let ghost mut steps: nat = 0;
    while stack.len() > 0
        invariant
            at(w, stack@) == progress(ev, rv, steps),
            n == edges.len(),
            n < usize::MAX,
            rv == roots@,
            ev == lists(edges@),
            in_graph(ev, rv, n as int),
            walk_so_far(ev, rv, w, n as int),
            forall|k: int| 0 <= k < rv.len() ==> w.live[#[trigger] rv[k] as int],
            closed_but(ev, w.live@, stack@),
            forall|k: int|
                0 <= k < stack.len() ==> (#[trigger] stack[k]) < n && w.live[stack[k] as int],
            w.found.len() <= n,
        decreases n - w.found.len(), stack.len(),
    {
        let ghost old_stack = stack@;
        let id: usize = match stack.pop() {
            Some(id) => id,
            None => 0,
        };
        assert(old_stack[old_stack.len() - 1] == id);
        assert(ev[id as int] == edges[id as int]@);
        let ghost done = w.found.len();
        let ghost from = at(w, stack@);
        assert(from =~= (Progress { stack: old_stack.drop_last(), ..at(w, old_stack) }));
        let mut k: usize = 0;
        proof {
            assert forall|a: int, b: int|
                0 <= a < n && a != id && w.live[a] && !stack@.contains(a as usize)
                    && #[trigger] has_edge(ev, a, b) implies w.live[b] by {
                if old_stack.contains(a as usize) {
                    let j = choose|j: int| 0 <= j < old_stack.len() && old_stack[j] == a as usize;
                    assert(stack@[j] == a as usize);
                }
            }
        }
        while k < edges[id].len()
            invariant
                k <= edges[id as int].len(),
                id < n,
                n == edges.len(),
                n < usize::MAX,
                rv == roots@,
                ev == lists(edges@),
                ev[id as int] == edges[id as int]@,
                in_graph(ev, rv, n as int),
                walk_so_far(ev, rv, w, n as int),
                w.live[id as int],
                at(w, stack@) == noted_to(from, ev[id as int], id, k as int),
                forall|k: int| 0 <= k < rv.len() ==> w.live[#[trigger] rv[k] as int],
                forall|a: int, b: int|
                    0 <= a < n && a != id && w.live[a] && !stack@.contains(a as usize)
                        && #[trigger] has_edge(ev, a, b) ==> w.live[b],
                forall|j: int| 0 <= j < k ==> w.live[#[trigger] ev[id as int][j] as int],
                forall|k: int|
                    0 <= k < stack.len() ==> (#[trigger] stack[k]) < n && w.live[stack[k] as int],
                done <= w.found.len() <= n,
                w.found.len() == done ==> stack.len() < old_stack.len(),
            decreases edges[id as int].len() - k,
        {
            let t: usize = edges[id][k];
            let ghost before = w;
            let ghost before_stack = stack@;
            proof {
                assert(ev[id as int][k as int] == t);
                assert(has_edge(ev, id as int, t as int));
                lemma_edge_reachable(ev, rv, id as int, t as int);
            }
            mark(&mut w, &mut stack, t, id, Ghost(ev), Ghost(rv));
            proof {
                assert forall|a: int, b: int|
                    0 <= a < n && a != id && w.live[a] && !stack@.contains(a as usize)
                        && #[trigger] has_edge(ev, a, b) implies w.live[b] by {
                    if before.live[a] {
                        if before_stack.contains(a as usize) {
                            let j = choose|j: int|
                                0 <= j < before_stack.len() && before_stack[j] == a as usize;
                            assert(stack@[j] == a as usize);
                        }
                        assert(before.live[b]);
                    } else {
                        assert(a == t);
                        assert(stack@[stack.len() - 1] == a as usize);
                    }
                }
                lemma_distinct_len(w.found@, n as int);
                assert forall|j: int| 0 <= j < stack.len() implies (#[trigger] stack[j]) < n
                    && w.live[stack[j] as int] by {
                    if j < before_stack.len() {
                        assert(stack[j] == before_stack[j]);
                    }
                }
            }
            k += 1;
        }
        proof {
            assert(at(w, stack@) == stepped(ev, progress(ev, rv, steps)));
            steps = steps + 1;
            assert forall|a: int, b: int|
                0 <= a < n && w.live[a] && !stack@.contains(a as usize) && #[trigger] has_edge(
                    ev,
                    a,
                    b,
                ) implies w.live[b] by {
                if a == id {
                    let j = choose|j: int|
                        0 <= j < ev[a].len() && #[trigger] ev[a][j] == b;
                    assert(w.live[ev[id as int][j] as int]);
                }
            }
        }
    }
    proof {
        assert(ends_after(ev, rv, w, steps));
        assert forall|i: int| 0 <= i < n implies #[trigger] w.live[i] == reachable(
            ev,
            rv,
            i,
        ) by {
            if reachable(ev, rv, i) {
                let path = choose|path: Seq<int>| is_path(ev, rv, path, i);
                assert forall|a: int, b: int|
                    0 <= a < w.live@.len() && w.live@[a] && #[trigger] has_edge(
                        ev,
                        a,
                        b,
                    ) implies w.live@[b] by {
                    assert(!stack@.contains(a as usize));
                }
                lemma_closed_set(ev, rv, w.live@, path, i);
            }
        }
    }
    w
}

/// Distinct numbers below `n` are at most `n` many.
proof fn lemma_distinct_len(s: Seq<usize>, n: int)
    requires
        s.no_duplicates(),
        forall|k: int| 0 <= k < s.len() ==> (#[trigger] s[k]) < n,
        0 <= n,
    ensures
        s.len() <= n,
    decreases n,
{
    if s.len() > 0 && n > 0 {
        let top = (n - 1) as usize;
        if s.contains(top) {
            let j = choose|j: int| 0 <= j < s.len() && s[j] == top;
            let t = s.remove(j);
            assert forall|k: int| 0 <= k < t.len() implies (#[trigger] t[k]) < n - 1 by {
                let m = if k < j {
                    k
                } else {
                    k + 1
                };
                assert(t[k] == s[m]);
                assert(s[m] != s[j]);
            }
            assert(t.no_duplicates()) by {
                assert forall|a: int, b: int|
                    0 <= a < t.len() && 0 <= b < t.len() && a != b implies t[a] != t[b] by {
                    let x = if a < j {
                        a
                    } else {
                        a + 1
                    };
                    let y = if b < j {
                        b
                    } else {
                        b + 1
                    };
                    assert(t[a] == s[x]);
                    assert(t[b] == s[y]);
                }
            }
            lemma_distinct_len(t, n - 1);
        } else {
            assert forall|k: int| 0 <= k < s.len() implies (#[trigger] s[k]) < n - 1 by {
                assert(s.contains(s[k]));
            }
            lemma_distinct_len(s, n - 1);
        }
    } else if s.len() > 0 {
        assert(s[0] < n);
    }
}

} // verus!
