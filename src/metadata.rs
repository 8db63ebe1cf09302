//! The metadata pass: preorder links, parents, depths, contiguity, unique
//! ids and content ids for the nodes of both trees of a diff.
use vstd::prelude::*;
use crate::syntax::{
    children_of, close_spans, open_spans, is_list, Arena, AtomKind, Syntax, SyntaxInfo,
};
use crate::style::{split_lines, text_lines};

verus! {

/// Node `m` is `n` or lies below it.
pub open spec fn reachable(nodes: Seq<Syntax>, n: usize, m: usize) -> bool
    decreases n,
{
    m == n || exists|k: int|
        0 <= k < children_of(nodes[n as int]).len() && {
            let c = #[trigger] children_of(nodes[n as int])[k];
            c < n && reachable(nodes, c, m)
        }
}

/// Node `m` lies in one of the trees under `roots`.
pub open spec fn in_forest(nodes: Seq<Syntax>, roots: Seq<usize>, m: usize) -> bool {
    exists|i: int| 0 <= i < roots.len() && reachable(nodes, #[trigger] roots[i], m)
}

/// `s` holds the children of each node in it.
pub open spec fn closed(nodes: Seq<Syntax>, s: Set<int>) -> bool {
    forall|n: int, k: int|
        s.contains(n) && 0 <= n < nodes.len() && 0 <= k < children_of(nodes[n]).len()
            ==> s.contains(#[trigger] children_of(nodes[n])[k] as int)
}

pub proof fn lemma_closed_reachable(nodes: Seq<Syntax>, s: Set<int>, n: usize, m: usize)
    requires
        closed(nodes, s),
        s.contains(n as int),
        n < nodes.len(),
        reachable(nodes, n, m),
    ensures
        s.contains(m as int),
    decreases n,
{
    if m != n {
        let k = choose|k: int|
            0 <= k < children_of(nodes[n as int]).len() && {
                let c = #[trigger] children_of(nodes[n as int])[k];
                c < n && reachable(nodes, c, m)
            };
        let c = children_of(nodes[n as int])[k];
        lemma_closed_reachable(nodes, s, c, m);
    }
}

pub proof fn lemma_reachable_bound(nodes: Seq<Syntax>, n: usize, m: usize)
    requires
        reachable(nodes, n, m),
    ensures
        m <= n,
    decreases n,
{
    if m != n {
        let k = choose|k: int|
            0 <= k < children_of(nodes[n as int]).len() && {
                let c = #[trigger] children_of(nodes[n as int])[k];
                c < n && reachable(nodes, c, m)
            };
        lemma_reachable_bound(nodes, children_of(nodes[n as int])[k], m);
    }
}

/// Copy the children of node `n`.
fn children_copy(arena: &Arena, n: usize) -> (r: Vec<usize>)
    requires
        n < arena.nodes@.len(),
    ensures
        r@ == children_of(arena.nodes@[n as int]),
{
    let mut r: Vec<usize> = Vec::new();
    match &arena.nodes[n] {
        Syntax::List { children, .. } => {
            let mut i: usize = 0;
            while i < children.len()
                invariant
                    i <= children@.len(),
                    r@ == children@.take(i as int),
                decreases children@.len() - i,
            {
                r.push(children[i]);
                i = i + 1;
                assert(r@ =~= children@.take(i as int));
            }
            assert(children@.take(i as int) =~= children@);
        },
        Syntax::Atom { .. } => {},
    }
    r
}

/// Only the preorder links of `a` differ in `b`.
pub open spec fn only_links(a: Seq<SyntaxInfo>, b: Seq<SyntaxInfo>) -> bool {
    &&& a.len() == b.len()
    &&& forall|i: int| 0 <= i < a.len() ==> SyntaxInfo { next: b[i].next, prev: b[i].prev, ..a[i] } == #[trigger] b[i]
}

/// Only the parents of `a` differ in `b`.
pub open spec fn only_parents(a: Seq<SyntaxInfo>, b: Seq<SyntaxInfo>) -> bool {
    &&& a.len() == b.len()
    &&& forall|i: int| 0 <= i < a.len() ==> SyntaxInfo { parent: b[i].parent, ..a[i] } == #[trigger] b[i]
}

/// Only the depths of `a` differ in `b`.
pub open spec fn only_depths(a: Seq<SyntaxInfo>, b: Seq<SyntaxInfo>) -> bool {
    &&& a.len() == b.len()
    &&& forall|i: int| 0 <= i < a.len() ==> SyntaxInfo { num_ancestors: b[i].num_ancestors, ..a[i] } == #[trigger] b[i]
}

/// Only the contiguity flags of `a` differ in `b`.
pub open spec fn only_contiguity(a: Seq<SyntaxInfo>, b: Seq<SyntaxInfo>) -> bool {
    &&& a.len() == b.len()
    &&& forall|i: int| 0 <= i < a.len() ==> SyntaxInfo { prev_is_contiguous: b[i].prev_is_contiguous, ..a[i] } == #[trigger] b[i]
}

/// Only the unique ids of `a` differ in `b`.
pub open spec fn only_unique_ids(a: Seq<SyntaxInfo>, b: Seq<SyntaxInfo>) -> bool {
    &&& a.len() == b.len()
    &&& forall|i: int| 0 <= i < a.len() ==> SyntaxInfo { unique_id: b[i].unique_id, ..a[i] } == #[trigger] b[i]
}

/// Only the content ids of `a` differ in `b`.
pub open spec fn only_content_ids(a: Seq<SyntaxInfo>, b: Seq<SyntaxInfo>) -> bool {
    &&& a.len() == b.len()
    &&& forall|i: int| 0 <= i < a.len() ==> SyntaxInfo { content_id: b[i].content_id, ..a[i] } == #[trigger] b[i]
}

/// What a preorder walk gives as successor to the `k`-th of the sequence
/// `seq`, which is followed by `after`.
pub open spec fn next_in(seq: Seq<usize>, after: Option<usize>, k: int) -> Option<usize> {
    if k + 1 < seq.len() {
        Some(seq[k + 1])
    } else {
        after
    }
}

/// A successor that the walk may give node `m`: for one of `roots`, the
/// root after it or `after`; for a child, the child after it or, for a last
/// child, a successor that its list may get.
pub open spec fn next_fits(nodes: Seq<Syntax>, roots: Seq<usize>, after: Option<usize>, m: usize, v: Option<usize>) -> bool
    decreases nodes.len() - m,
{
    (exists|k: int| 0 <= k < roots.len() && #[trigger] roots[k] == m && v == next_in(roots, after, k))
        || (exists|p: usize, k: int|
        p < nodes.len() && 0 <= k < children_of(nodes[p as int]).len() - 1 && #[trigger] children_of(
            nodes[p as int],
        )[k] == m && v == Some(children_of(nodes[p as int])[k + 1]))
        || (exists|p: usize|
        m < p < nodes.len() && children_of(nodes[p as int]).len() > 0 && #[trigger] children_of(
            nodes[p as int],
        ).last() == m && next_fits(nodes, roots, after, p, v))
}

proof fn lemma_next_fits_lift(
    nodes: Seq<Syntax>,
    roots: Seq<usize>,
    after: Option<usize>,
    node: usize,
    node_next: Option<usize>,
    y: usize,
    v: Option<usize>,
)
    requires
        node < nodes.len(),
        forall|k: int| 0 <= k < children_of(nodes[node as int]).len() ==> #[trigger] children_of(nodes[node as int])[k] < node,
        next_fits(nodes, roots, after, node, node_next),
        next_fits(nodes, children_of(nodes[node as int]), node_next, y, v),
    ensures
        next_fits(nodes, roots, after, y, v),
    decreases nodes.len() - y,
{
    let ch = children_of(nodes[node as int]);
    if exists|k: int| 0 <= k < ch.len() && #[trigger] ch[k] == y && v == next_in(ch, node_next, k) {
        let k = choose|k: int| 0 <= k < ch.len() && #[trigger] ch[k] == y && v == next_in(ch, node_next, k);
        if k + 1 < ch.len() {
            assert(children_of(nodes[node as int])[k] == y);
        } else {
            assert(ch.last() == y);
            assert(y < node);
        }
    } else if exists|p: usize, k: int|
        p < nodes.len() && 0 <= k < children_of(nodes[p as int]).len() - 1 && #[trigger] children_of(
            nodes[p as int],
        )[k] == y && v == Some(children_of(nodes[p as int])[k + 1]) {
    } else {
        let p = choose|p: usize|
            y < p < nodes.len() && children_of(nodes[p as int]).len() > 0 && #[trigger] children_of(
                nodes[p as int],
            ).last() == y && next_fits(nodes, ch, node_next, p, v);
        lemma_next_fits_lift(nodes, roots, after, node, node_next, p, v);
    }
}

/// For every node, mark the next node according to a preorder traversal;
/// the last of `nodes` is followed by `parent_next`.
fn set_next(arena: &mut Arena, nodes: &[usize], parent_next: Option<usize>, Ghost(bound): Ghost<nat>)
    requires
        old(arena).wf(),
        bound <= old(arena).nodes@.len(),
        forall|k: int| 0 <= k < nodes@.len() ==> #[trigger] nodes@[k] < bound,
    ensures
        final(arena).wf(),
        final(arena).nodes@ == old(arena).nodes@,
        only_links(old(arena).infos@, final(arena).infos@),
        forall|x: int| 0 <= x < old(arena).infos@.len() ==> (#[trigger] final(arena).infos@[x]).prev
            == old(arena).infos@[x].prev,
        forall|x: int| 0 <= x < old(arena).infos@.len() ==> (#[trigger] final(arena).infos@[x]).next
            == old(arena).infos@[x].next || next_fits(old(arena).nodes@, nodes@, parent_next, x as usize, final(arena).infos@[x].next),
        forall|m: usize| #[trigger] in_forest(old(arena).nodes@, nodes@, m) ==> next_fits(
            old(arena).nodes@,
            nodes@,
            parent_next,
            m,
            final(arena).infos@[m as int].next,
        ),
    decreases bound,
{
    let ghost start = arena.infos@;
    let mut i: usize = 0;
    while i < nodes.len()
        invariant
            arena.wf(),
            arena.nodes@ == old(arena).nodes@,
            bound <= arena.nodes@.len(),
            forall|k: int| 0 <= k < nodes@.len() ==> #[trigger] nodes@[k] < bound,
            only_links(start, arena.infos@),
            start == old(arena).infos@,
            forall|x: int| 0 <= x < start.len() ==> (#[trigger] arena.infos@[x]).prev == start[x].prev,
            i <= nodes@.len(),
            forall|x: int| 0 <= x < start.len() ==> (#[trigger] arena.infos@[x]).next == start[x].next
                || next_fits(arena.nodes@, nodes@, parent_next, x as usize, arena.infos@[x].next),
            forall|m: usize| #[trigger] in_forest(arena.nodes@, nodes@.take(i as int), m) ==> next_fits(
                arena.nodes@,
                nodes@,
                parent_next,
                m,
                arena.infos@[m as int].next,
            ),
        decreases nodes@.len() - i,
    {
        let node = nodes[i];
        let node_next = if i + 1 < nodes.len() {
            Some(nodes[i + 1])
        } else {
            parent_next
        };
        let ghost pre = arena.infos@;
        let info = SyntaxInfo { next: node_next, ..arena.infos[node] };
        arena.infos.set(node, info);
        let ghost mid = arena.infos@;
        assert forall|x: int| 0 <= x < start.len() implies (#[trigger] mid[x]).prev == start[x].prev by {
            assert(mid[x].prev == pre[x].prev);
        }
        let children = children_copy(arena, node);
        assert forall|k: int| 0 <= k < children@.len() implies #[trigger] children@[k] < node by {
            assert(children_of(arena.nodes@[node as int])[k] < node);
        }
        assert(nodes@[i as int] == node && node_next == next_in(nodes@, parent_next, i as int));
        assert(next_fits(arena.nodes@, nodes@, parent_next, node, node_next));
        set_next(arena, children.as_slice(), node_next, Ghost(node as nat));
        proof {
            let nodes_v = arena.nodes@;
            assert forall|k: int| 0 <= k < children_of(nodes_v[node as int]).len() implies #[trigger] children_of(nodes_v[node as int])[k] < node by {
                assert(children@[k] == children_of(nodes_v[node as int])[k]);
            }
            assert forall|x: usize, v: Option<usize>| #[trigger] next_fits(nodes_v, children@, node_next, x, v)
                implies next_fits(nodes_v, nodes@, parent_next, x, v) by {
                lemma_next_fits_lift(nodes_v, nodes@, parent_next, node, node_next, x, v);
            }
            assert forall|x: int| 0 <= x < start.len() implies (#[trigger] arena.infos@[x]).next == start[x].next
                || next_fits(arena.nodes@, nodes@, parent_next, x as usize, arena.infos@[x].next) by {
                if arena.infos@[x].next != mid[x].next {
                    assert(next_fits(nodes_v, children@, node_next, x as usize, arena.infos@[x].next));
                } else if x != node as int {
                    assert(mid[x] == pre[x]);
                }
            }
            assert forall|m: usize| #[trigger] in_forest(arena.nodes@, nodes@.take(i + 1), m) implies next_fits(
                arena.nodes@,
                nodes@,
                parent_next,
                m,
                arena.infos@[m as int].next,
            ) by {
                let j = choose|j: int| 0 <= j < nodes@.take(i + 1).len() && reachable(arena.nodes@, #[trigger] nodes@.take(i + 1)[j], m);
                lemma_reachable_bound(arena.nodes@, nodes@.take(i + 1)[j], m);
                if j < i {
                    assert(nodes@.take(i as int)[j] == nodes@.take(i + 1)[j]);
                    assert(in_forest(arena.nodes@, nodes@.take(i as int), m));
                    if arena.infos@[m as int].next != mid[m as int].next {
                        assert(next_fits(nodes_v, children@, node_next, m, arena.infos@[m as int].next));
                    } else if m != node {
                        assert(mid[m as int] == pre[m as int]);
                    }
                } else if m == node {
                    if arena.infos@[m as int].next != mid[m as int].next {
                        assert(next_fits(nodes_v, children@, node_next, m, arena.infos@[m as int].next));
                    }
                } else {
                    let k = choose|k: int|
                        0 <= k < children_of(arena.nodes@[node as int]).len() && {
                            let c = #[trigger] children_of(arena.nodes@[node as int])[k];
                            c < node && reachable(arena.nodes@, c, m)
                        };
                    assert(children@[k] == children_of(arena.nodes@[node as int])[k]);
                    assert(in_forest(arena.nodes@, children@, m));
                    assert(next_fits(nodes_v, children@, node_next, m, arena.infos@[m as int].next));
                }
            }
        }
        i = i + 1;
    }
    assert(nodes@.take(i as int) =~= nodes@);
}

/// `v` is what a preorder walk gives as predecessor to `m` as the `k`-th
/// of the sequence `seq`, whose first element follows `first`.
pub open spec fn prev_in(seq: Seq<usize>, first: Option<usize>, k: int, v: Option<usize>) -> bool {
    v == if k == 0 {
        first
    } else {
        Some(seq[k - 1])
    }
}

/// A predecessor that the walk may give node `m`: for one of `roots`, the
/// root before it or `first`; for a child, the child before it or, for a
/// first child, its list.
pub open spec fn prev_fits(nodes: Seq<Syntax>, roots: Seq<usize>, first: Option<usize>, m: usize, v: Option<usize>) -> bool {
    (exists|k: int| 0 <= k < roots.len() && #[trigger] roots[k] == m && prev_in(roots, first, k, v))
        || (exists|p: usize, k: int|
        p < nodes.len() && 0 <= k < children_of(nodes[p as int]).len() && #[trigger] children_of(
            nodes[p as int],
        )[k] == m && prev_in(children_of(nodes[p as int]), Some(p), k, v))
}

/// For every node, mark the previous node according to a preorder
/// traversal; the first of `nodes` is preceded by `parent`.
fn set_prev(arena: &mut Arena, nodes: &[usize], parent: Option<usize>, Ghost(bound): Ghost<nat>)
    requires
        old(arena).wf(),
        bound <= old(arena).nodes@.len(),
        forall|k: int| 0 <= k < nodes@.len() ==> #[trigger] nodes@[k] < bound,
    ensures
        final(arena).wf(),
        final(arena).nodes@ == old(arena).nodes@,
        only_links(old(arena).infos@, final(arena).infos@),
        forall|x: int| 0 <= x < old(arena).infos@.len() ==> (#[trigger] final(arena).infos@[x]).prev
            == old(arena).infos@[x].prev || prev_fits(old(arena).nodes@, nodes@, parent, x as usize, final(arena).infos@[x].prev),
        forall|x: int| 0 <= x < old(arena).infos@.len() ==> (#[trigger] final(arena).infos@[x]).next
            == old(arena).infos@[x].next,
        forall|m: usize| #[trigger] in_forest(old(arena).nodes@, nodes@, m) ==> prev_fits(
            old(arena).nodes@,
            nodes@,
            parent,
            m,
            final(arena).infos@[m as int].prev,
        ),
    decreases bound,
{
    let ghost start = arena.infos@;
    let mut i: usize = 0;
    while i < nodes.len()
        invariant
            arena.wf(),
            arena.nodes@ == old(arena).nodes@,
            start == old(arena).infos@,
            bound <= arena.nodes@.len(),
            forall|k: int| 0 <= k < nodes@.len() ==> #[trigger] nodes@[k] < bound,
            only_links(start, arena.infos@),
            i <= nodes@.len(),
            forall|x: int| 0 <= x < start.len() ==> (#[trigger] arena.infos@[x]).prev == start[x].prev
                || prev_fits(arena.nodes@, nodes@, parent, x as usize, arena.infos@[x].prev),
            forall|x: int| 0 <= x < start.len() ==> (#[trigger] arena.infos@[x]).next == start[x].next,
            forall|m: usize| #[trigger] in_forest(arena.nodes@, nodes@.take(i as int), m) ==> prev_fits(
                arena.nodes@,
                nodes@,
                parent,
                m,
                arena.infos@[m as int].prev,
            ),
        decreases nodes@.len() - i,
    {
        let node = nodes[i];
        let ghost pre = arena.infos@;
        let node_prev = if i == 0 {
            parent
        } else {
            Some(nodes[i - 1])
        };
        let info = SyntaxInfo { prev: node_prev, ..arena.infos[node] };
        arena.infos.set(node, info);
        let children = children_copy(arena, node);
        assert forall|k: int| 0 <= k < children@.len() implies #[trigger] children@[k] < node by {
            assert(children_of(arena.nodes@[node as int])[k] < node);
        }
        let ghost mid = arena.infos@;
        assert(nodes@[i as int] == node && prev_in(nodes@, parent, i as int, node_prev));
        assert(prev_fits(arena.nodes@, nodes@, parent, node, mid[node as int].prev));
        set_prev(arena, children.as_slice(), Some(node), Ghost(node as nat));
        proof {
            let nodes_v = arena.nodes@;
            assert forall|x: usize, v: Option<usize>| #[trigger] prev_fits(nodes_v, children@, Some(node), x, v)
                implies prev_fits(nodes_v, nodes@, parent, x, v) by {
                if exists|k: int| 0 <= k < children@.len() && #[trigger] children@[k] == x && prev_in(children@, Some(node), k, v) {
                    let k = choose|k: int| 0 <= k < children@.len() && #[trigger] children@[k] == x && prev_in(children@, Some(node), k, v);
                    assert(children_of(nodes_v[node as int])[k] == x);
                }
            }
            assert forall|x: int| 0 <= x < start.len() implies (#[trigger] arena.infos@[x]).prev == start[x].prev
                || prev_fits(arena.nodes@, nodes@, parent, x as usize, arena.infos@[x].prev) by {
                if arena.infos@[x].prev != mid[x].prev {
                    assert(prev_fits(nodes_v, children@, Some(node), x as usize, arena.infos@[x].prev));
                } else if x != node as int {
                    assert(mid[x] == pre[x]);
                }
            }
            assert forall|x: int| 0 <= x < start.len() implies (#[trigger] arena.infos@[x]).next == start[x].next by {
                assert(mid[x].next == pre[x].next);
            }
            assert forall|m: usize| #[trigger] in_forest(arena.nodes@, nodes@.take(i + 1), m) implies prev_fits(
                arena.nodes@,
                nodes@,
                parent,
                m,
                arena.infos@[m as int].prev,
            ) by {
                let j = choose|j: int| 0 <= j < nodes@.take(i + 1).len() && reachable(arena.nodes@, #[trigger] nodes@.take(i + 1)[j], m);
                lemma_reachable_bound(arena.nodes@, nodes@.take(i + 1)[j], m);
                if j < i {
                    assert(nodes@.take(i as int)[j] == nodes@.take(i + 1)[j]);
                    assert(in_forest(arena.nodes@, nodes@.take(i as int), m));
                    if arena.infos@[m as int].prev != mid[m as int].prev {
                        assert(prev_fits(nodes_v, children@, Some(node), m, arena.infos@[m as int].prev));
                    } else if m != node {
                        assert(mid[m as int] == pre[m as int]);
                    }
                } else if m == node {
                    if arena.infos@[m as int].prev != mid[m as int].prev {
                        assert(prev_fits(nodes_v, children@, Some(node), m, arena.infos@[m as int].prev));
                    }
                } else {
                    let k = choose|k: int|
                        0 <= k < children_of(arena.nodes@[node as int]).len() && {
                            let c = #[trigger] children_of(arena.nodes@[node as int])[k];
                            c < node && reachable(arena.nodes@, c, m)
                        };
                    assert(children@[k] == children_of(arena.nodes@[node as int])[k]);
                    assert(in_forest(arena.nodes@, children@, m));
                    assert(prev_fits(nodes_v, children@, Some(node), m, arena.infos@[m as int].prev));
                }
            }
        }
        i = i + 1;
    }
    assert(nodes@.take(i as int) =~= nodes@);
}

/// `p` is a list that has `m` among its children.
pub open spec fn is_parent(nodes: Seq<Syntax>, p: usize, m: usize) -> bool {
    p < nodes.len() && children_of(nodes[p as int]).contains(m)
}

/// A parent that the parent pass may give node `m`: a list that has it as
/// a child, or `parent` if `m` is one of `roots`.
pub open spec fn parent_fits(nodes: Seq<Syntax>, roots: Seq<usize>, parent: Option<usize>, m: usize, v: Option<usize>) -> bool {
    (roots.contains(m) && v == parent) || match v {
        Some(p) => is_parent(nodes, p, m),
        None => false,
    }
}

/// Mark the parent of every node: `parent` for `nodes` themselves.
fn set_parent(arena: &mut Arena, nodes: &[usize], parent: Option<usize>, Ghost(bound): Ghost<nat>)
    requires
        old(arena).wf(),
        bound <= old(arena).nodes@.len(),
        forall|k: int| 0 <= k < nodes@.len() ==> #[trigger] nodes@[k] < bound,
    ensures
        final(arena).wf(),
        final(arena).nodes@ == old(arena).nodes@,
        only_parents(old(arena).infos@, final(arena).infos@),
        forall|x: int| 0 <= x < old(arena).infos@.len() ==> (#[trigger] final(arena).infos@[x]).parent
            == old(arena).infos@[x].parent || parent_fits(old(arena).nodes@, nodes@, parent, x as usize, final(arena).infos@[x].parent),
        forall|m: usize| #[trigger] in_forest(old(arena).nodes@, nodes@, m) ==> parent_fits(
            old(arena).nodes@,
            nodes@,
            parent,
            m,
            final(arena).infos@[m as int].parent,
        ),
    decreases bound,
{
    let ghost start = arena.infos@;
    let mut i: usize = 0;
    while i < nodes.len()
        invariant
            arena.wf(),
            arena.nodes@ == old(arena).nodes@,
            start == old(arena).infos@,
            bound <= arena.nodes@.len(),
            forall|k: int| 0 <= k < nodes@.len() ==> #[trigger] nodes@[k] < bound,
            only_parents(start, arena.infos@),
            i <= nodes@.len(),
            forall|x: int| 0 <= x < start.len() ==> (#[trigger] arena.infos@[x]).parent == start[x].parent
                || parent_fits(arena.nodes@, nodes@, parent, x as usize, arena.infos@[x].parent),
            forall|m: usize| #[trigger] in_forest(arena.nodes@, nodes@.take(i as int), m) ==> parent_fits(
                arena.nodes@,
                nodes@,
                parent,
                m,
                arena.infos@[m as int].parent,
            ),
        decreases nodes@.len() - i,
    {
        let node = nodes[i];
        let ghost pre = arena.infos@;
        let info = SyntaxInfo { parent, ..arena.infos[node] };
        arena.infos.set(node, info);
        let children = children_copy(arena, node);
        assert forall|k: int| 0 <= k < children@.len() implies #[trigger] children@[k] < node by {
            assert(children_of(arena.nodes@[node as int])[k] < node);
        }
        let ghost mid = arena.infos@;
        assert(nodes@[i as int] == node);
        assert(parent_fits(arena.nodes@, nodes@, parent, node, mid[node as int].parent));
        set_parent(arena, children.as_slice(), Some(node), Ghost(node as nat));
        proof {
            let nodes_v = arena.nodes@;
            assert forall|x: usize, v: Option<usize>| #[trigger] parent_fits(nodes_v, children@, Some(node), x, v)
                implies parent_fits(nodes_v, nodes@, parent, x, v) by {
                if children@.contains(x) && v == Some(node) {
                    assert(is_parent(nodes_v, node, x));
                }
            }
            assert forall|x: int| 0 <= x < start.len() implies (#[trigger] arena.infos@[x]).parent == start[x].parent
                || parent_fits(arena.nodes@, nodes@, parent, x as usize, arena.infos@[x].parent) by {
                if arena.infos@[x].parent != mid[x].parent {
                    assert(parent_fits(nodes_v, children@, Some(node), x as usize, arena.infos@[x].parent));
                } else if x != node as int {
                    assert(mid[x] == pre[x]);
                }
            }
            assert forall|m: usize| #[trigger] in_forest(arena.nodes@, nodes@.take(i + 1), m) implies parent_fits(
                arena.nodes@,
                nodes@,
                parent,
                m,
                arena.infos@[m as int].parent,
            ) by {
                let j = choose|j: int| 0 <= j < nodes@.take(i + 1).len() && reachable(arena.nodes@, #[trigger] nodes@.take(i + 1)[j], m);
                lemma_reachable_bound(arena.nodes@, nodes@.take(i + 1)[j], m);
                if j < i {
                    assert(nodes@.take(i as int)[j] == nodes@.take(i + 1)[j]);
                    assert(in_forest(arena.nodes@, nodes@.take(i as int), m));
                    if arena.infos@[m as int].parent != mid[m as int].parent {
                        assert(parent_fits(nodes_v, children@, Some(node), m, arena.infos@[m as int].parent));
                    } else if m != node {
                        assert(mid[m as int] == pre[m as int]);
                    }
                } else if m == node {
                    if arena.infos@[m as int].parent != mid[m as int].parent {
                        assert(parent_fits(nodes_v, children@, Some(node), m, arena.infos@[m as int].parent));
                    }
                } else {
                    let k = choose|k: int|
                        0 <= k < children_of(arena.nodes@[node as int]).len() && {
                            let c = #[trigger] children_of(arena.nodes@[node as int])[k];
                            c < node && reachable(arena.nodes@, c, m)
                        };
                    assert(children@[k] == children_of(arena.nodes@[node as int])[k]);
                    assert(in_forest(arena.nodes@, children@, m));
                    assert(parent_fits(nodes_v, children@, Some(node), m, arena.infos@[m as int].parent));
                }
            }
        }
        i = i + 1;
    }
    assert(nodes@.take(i as int) =~= nodes@);
}

/// Node `m` lies `k` levels below node `n`.
pub open spec fn at_depth(nodes: Seq<Syntax>, n: usize, m: usize, k: nat) -> bool
    decreases n,
{
    if k == 0 {
        m == n
    } else {
        exists|j: int|
            0 <= j < children_of(nodes[n as int]).len() && {
                let c = #[trigger] children_of(nodes[n as int])[j];
                c < n && at_depth(nodes, c, m, (k - 1) as nat)
            }
    }
}

/// A depth that the depth pass may give node `m`: `depth` plus the number
/// of levels by which it lies below one of `roots`.
pub open spec fn depth_fits(nodes: Seq<Syntax>, roots: Seq<usize>, depth: nat, m: usize, v: u32) -> bool {
    exists|r: int, k: nat| 0 <= r < roots.len() && #[trigger] at_depth(nodes, roots[r], m, k) && v == depth + k
}

/// Mark the depth of every node: `num_ancestors` for `nodes` themselves,
/// one more for each level below.
fn set_num_ancestors(arena: &mut Arena, nodes: &[usize], num_ancestors: u32, Ghost(bound): Ghost<nat>)
    requires
        old(arena).wf(),
        bound <= old(arena).nodes@.len(),
        num_ancestors + bound <= u32::MAX,
        forall|k: int| 0 <= k < nodes@.len() ==> #[trigger] nodes@[k] < bound,
    ensures
        final(arena).wf(),
        final(arena).nodes@ == old(arena).nodes@,
        only_depths(old(arena).infos@, final(arena).infos@),
        forall|x: int| 0 <= x < old(arena).infos@.len() ==> (#[trigger] final(arena).infos@[x]).num_ancestors
            == old(arena).infos@[x].num_ancestors || depth_fits(old(arena).nodes@, nodes@, num_ancestors as nat, x as usize, final(arena).infos@[x].num_ancestors),
        forall|m: usize| #[trigger] in_forest(old(arena).nodes@, nodes@, m) ==> depth_fits(
            old(arena).nodes@,
            nodes@,
            num_ancestors as nat,
            m,
            final(arena).infos@[m as int].num_ancestors,
        ),
    decreases bound,
{
    let ghost start = arena.infos@;
    let ghost d = num_ancestors as nat;
    let mut i: usize = 0;
    while i < nodes.len()
        invariant
            arena.wf(),
            arena.nodes@ == old(arena).nodes@,
            start == old(arena).infos@,
            d == num_ancestors as nat,
            bound <= arena.nodes@.len(),
            num_ancestors + bound <= u32::MAX,
            forall|k: int| 0 <= k < nodes@.len() ==> #[trigger] nodes@[k] < bound,
            only_depths(start, arena.infos@),
            i <= nodes@.len(),
            forall|x: int| 0 <= x < start.len() ==> (#[trigger] arena.infos@[x]).num_ancestors
                == start[x].num_ancestors || depth_fits(arena.nodes@, nodes@, d, x as usize, arena.infos@[x].num_ancestors),
            forall|m: usize| #[trigger] in_forest(arena.nodes@, nodes@.take(i as int), m) ==> depth_fits(
                arena.nodes@,
                nodes@,
                d,
                m,
                arena.infos@[m as int].num_ancestors,
            ),
        decreases nodes@.len() - i,
    {
        let node = nodes[i];
        let ghost pre = arena.infos@;
        let info = SyntaxInfo { num_ancestors, ..arena.infos[node] };
        arena.infos.set(node, info);
        let children = children_copy(arena, node);
        assert forall|k: int| 0 <= k < children@.len() implies #[trigger] children@[k] < node by {
            assert(children_of(arena.nodes@[node as int])[k] < node);
        }
        let ghost mid = arena.infos@;
        assert(nodes@[i as int] == node);
        assert(at_depth(arena.nodes@, nodes@[i as int], node, 0));
        assert(depth_fits(arena.nodes@, nodes@, d, node, mid[node as int].num_ancestors));
        set_num_ancestors(arena, children.as_slice(), num_ancestors + 1, Ghost(node as nat));
        proof {
            let nodes_v = arena.nodes@;
            assert forall|x: usize, v: u32| #[trigger] depth_fits(nodes_v, children@, d + 1, x, v)
                implies depth_fits(nodes_v, nodes@, d, x, v) by {
                let (r, k) = choose|r: int, k: nat| 0 <= r < children@.len() && #[trigger] at_depth(nodes_v, children@[r], x, k) && v == d + 1 + k;
                assert(children_of(nodes_v[node as int])[r] == children@[r]);
                assert(at_depth(nodes_v, node, x, k + 1));
                assert(at_depth(nodes_v, nodes@[i as int], x, k + 1));
            }
            assert forall|x: int| 0 <= x < start.len() implies (#[trigger] arena.infos@[x]).num_ancestors
                == start[x].num_ancestors || depth_fits(arena.nodes@, nodes@, d, x as usize, arena.infos@[x].num_ancestors) by {
                if arena.infos@[x].num_ancestors != mid[x].num_ancestors {
                    assert(depth_fits(nodes_v, children@, d + 1, x as usize, arena.infos@[x].num_ancestors));
                } else if x != node as int {
                    assert(mid[x] == pre[x]);
                }
            }
            assert forall|m: usize| #[trigger] in_forest(arena.nodes@, nodes@.take(i + 1), m) implies depth_fits(
                arena.nodes@,
                nodes@,
                d,
                m,
                arena.infos@[m as int].num_ancestors,
            ) by {
                let j = choose|j: int| 0 <= j < nodes@.take(i + 1).len() && reachable(arena.nodes@, #[trigger] nodes@.take(i + 1)[j], m);
                lemma_reachable_bound(arena.nodes@, nodes@.take(i + 1)[j], m);
                if j < i {
                    assert(nodes@.take(i as int)[j] == nodes@.take(i + 1)[j]);
                    assert(in_forest(arena.nodes@, nodes@.take(i as int), m));
                    if arena.infos@[m as int].num_ancestors != mid[m as int].num_ancestors {
                        assert(depth_fits(nodes_v, children@, d + 1, m, arena.infos@[m as int].num_ancestors));
                    } else if m != node {
                        assert(mid[m as int] == pre[m as int]);
                    }
                } else if m == node {
                    if arena.infos@[m as int].num_ancestors != mid[m as int].num_ancestors {
                        assert(depth_fits(nodes_v, children@, d + 1, m, arena.infos@[m as int].num_ancestors));
                    }
                } else {
                    let k = choose|k: int|
                        0 <= k < children_of(arena.nodes@[node as int]).len() && {
                            let c = #[trigger] children_of(arena.nodes@[node as int])[k];
                            c < node && reachable(arena.nodes@, c, m)
                        };
                    assert(children@[k] == children_of(arena.nodes@[node as int])[k]);
                    assert(in_forest(arena.nodes@, children@, m));
                    assert(depth_fits(nodes_v, children@, d + 1, m, arena.infos@[m as int].num_ancestors));
                }
            }
        }
        i = i + 1;
    }
    assert(nodes@.take(i as int) =~= nodes@);
}

/// Whether a node that starts on `first` follows its predecessor `prev`
/// on the same line: an enclosing list's open delimiter, or the end of a
/// sibling or of an atom.
pub open spec fn contiguous(nodes: Seq<Syntax>, infos: Seq<SyntaxInfo>, prev: usize, n: usize) -> bool {
    let first = open_spans(nodes[n as int]);
    let spans = if is_list(nodes[prev as int]) && infos[prev as int].num_ancestors
        < infos[n as int].num_ancestors {
        open_spans(nodes[prev as int])
    } else {
        close_spans(nodes[prev as int])
    };
    spans.len() > 0 && first.len() > 0 && spans.last().line == first[0].line
        || spans.len() == 0 && first.len() == 0
}

/// The contiguity flag of node `n`: false for a node without predecessor.
pub open spec fn contiguity_of(nodes: Seq<Syntax>, infos: Seq<SyntaxInfo>, n: usize) -> bool {
    match infos[n as int].prev {
        Some(p) => p < nodes.len() && contiguous(nodes, infos, p, n),
        None => false,
    }
}

fn last_line_of(spans: &Vec<crate::positions::SingleLineSpan>) -> (r: Option<crate::positions::LineNumber>)
    ensures
        r == (if spans@.len() == 0 {
            None
        } else {
            Some(spans@.last().line)
        }),
{
    if spans.len() == 0 {
        None
    } else {
        Some(spans[spans.len() - 1].line)
    }
}

/// Mark whether each node starts on the line where its predecessor ends.
fn set_prev_is_contiguous(arena: &mut Arena, nodes: &[usize], Ghost(bound): Ghost<nat>)
    requires
        old(arena).wf(),
        bound <= old(arena).nodes@.len(),
        forall|k: int| 0 <= k < nodes@.len() ==> #[trigger] nodes@[k] < bound,
    ensures
        final(arena).wf(),
        final(arena).nodes@ == old(arena).nodes@,
        only_contiguity(old(arena).infos@, final(arena).infos@),
        forall|x: int| 0 <= x < old(arena).infos@.len() ==> (#[trigger] final(arena).infos@[x]).prev_is_contiguous
            == old(arena).infos@[x].prev_is_contiguous || final(arena).infos@[x].prev_is_contiguous
            == contiguity_of(old(arena).nodes@, old(arena).infos@, x as usize),
        forall|m: usize| #[trigger] in_forest(old(arena).nodes@, nodes@, m) ==> final(arena).infos@[m as int].prev_is_contiguous
            == contiguity_of(old(arena).nodes@, old(arena).infos@, m),
    decreases bound,
{
    let ghost start = arena.infos@;
    let mut i: usize = 0;
    while i < nodes.len()
        invariant
            arena.wf(),
            arena.nodes@ == old(arena).nodes@,
            bound <= arena.nodes@.len(),
            forall|k: int| 0 <= k < nodes@.len() ==> #[trigger] nodes@[k] < bound,
            only_contiguity(start, arena.infos@),
            start == old(arena).infos@,
            forall|x: int| 0 <= x < start.len() ==> (#[trigger] arena.infos@[x]).prev_is_contiguous
                == start[x].prev_is_contiguous || arena.infos@[x].prev_is_contiguous
                == contiguity_of(arena.nodes@, start, x as usize),
            forall|m: usize| #[trigger] in_forest(arena.nodes@, nodes@.take(i as int), m) ==> arena.infos@[m as int].prev_is_contiguous
                == contiguity_of(arena.nodes@, start, m),
            i <= nodes@.len(),
        decreases nodes@.len() - i,
    {
        let node = nodes[i];
        let ghost pre = arena.infos@;
        let is_contiguous = match arena.infos[node].prev {
            Some(prev) => if prev >= arena.nodes.len() {
                false
            } else {
                let first = arena.nodes[node].first_line();
                let prev_line = match &arena.nodes[prev] {
                    Syntax::List { open_position, close_position, .. } => {
                        if arena.infos[prev].num_ancestors < arena.infos[node].num_ancestors {
                            last_line_of(open_position)
                        } else {
                            last_line_of(close_position)
                        }
                    },
                    Syntax::Atom { position, .. } => last_line_of(position),
                };
                match (prev_line, first) {
                    (Some(a), Some(b)) => a.0 == b.0,
                    (None, None) => true,
                    _ => false,
                }
            }
            None => false,
        };
        let info = SyntaxInfo { prev_is_contiguous: is_contiguous, ..arena.infos[node] };
        arena.infos.set(node, info);
        let children = children_copy(arena, node);
        assert forall|k: int| 0 <= k < children@.len() implies #[trigger] children@[k] < node by {
            assert(children_of(arena.nodes@[node as int])[k] < node);
        }
        let ghost mid = arena.infos@;
        proof {
            assert(SyntaxInfo { prev_is_contiguous: mid[node as int].prev_is_contiguous, ..start[node as int] } == mid[node as int]);
            assert(mid[node as int].prev_is_contiguous == contiguity_of(arena.nodes@, start, node));
            assert(only_contiguity(mid, start.update(node as int, mid[node as int])));
        }
        set_prev_is_contiguous(arena, children.as_slice(), Ghost(node as nat));
        proof {
            assert forall|x: int| 0 <= x < mid.len() implies #[trigger] contiguity_of(arena.nodes@, mid, x as usize)
                == contiguity_of(arena.nodes@, start, x as usize) by {
                assert(mid[x].prev == start[x].prev);
                if let Some(p) = mid[x].prev {
                    if p < mid.len() {
                        assert(mid[p as int].num_ancestors == start[p as int].num_ancestors);
                    }
                }
                assert(mid[x].num_ancestors == start[x].num_ancestors);
            }
            assert forall|x: int| 0 <= x < start.len() implies (#[trigger] arena.infos@[x]).prev_is_contiguous
                == pre[x].prev_is_contiguous || arena.infos@[x].prev_is_contiguous
                == contiguity_of(arena.nodes@, start, x as usize) by {
                assert(contiguity_of(arena.nodes@, mid, x as usize) == contiguity_of(arena.nodes@, start, x as usize));
                if x != node {
                    assert(mid[x] == pre[x]);
                }
            }
            assert forall|m: usize| #[trigger] in_forest(arena.nodes@, nodes@.take(i + 1), m) implies arena.infos@[m as int].prev_is_contiguous
                == contiguity_of(arena.nodes@, start, m) by {
                assert(contiguity_of(arena.nodes@, mid, m) == contiguity_of(arena.nodes@, start, m)) by {
                    let j = choose|j: int| 0 <= j < nodes@.take(i + 1).len() && reachable(arena.nodes@, #[trigger] nodes@.take(i + 1)[j], m);
                    lemma_reachable_bound(arena.nodes@, nodes@.take(i + 1)[j], m);
                    assert(contiguity_of(arena.nodes@, mid, m as int as usize) == contiguity_of(arena.nodes@, start, m as int as usize));
                }
                let j = choose|j: int| 0 <= j < nodes@.take(i + 1).len() && reachable(arena.nodes@, #[trigger] nodes@.take(i + 1)[j], m);
                if j < i {
                    assert(nodes@.take(i as int)[j] == nodes@.take(i + 1)[j]);
                    assert(in_forest(arena.nodes@, nodes@.take(i as int), m));
                    assert(m < arena.infos@.len()) by {
                        lemma_reachable_bound(arena.nodes@, nodes@[j], m);
                    }
                } else if m == node {
                } else {
                    let k = choose|k: int|
                        0 <= k < children_of(arena.nodes@[node as int]).len() && {
                            let c = #[trigger] children_of(arena.nodes@[node as int])[k];
                            c < node && reachable(arena.nodes@, c, m)
                        };
                    assert(children@[k] == children_of(arena.nodes@[node as int])[k]);
                    assert(in_forest(arena.nodes@, children@, m));
                }
            }
        }
        i = i + 1;
    }
    assert(nodes@.take(i as int) =~= nodes@);
}

/// The number of nodes that a preorder walk from `n` visits.
pub open spec fn subtree_size(nodes: Seq<Syntax>, n: usize) -> nat
    decreases n, children_of(nodes[n as int]).len() + 1,
{
    1 + children_size(nodes, n, children_of(nodes[n as int]).len())
}

/// The number of nodes that preorder walks from the first `k` children of
/// `n` visit.
pub open spec fn children_size(nodes: Seq<Syntax>, n: usize, k: nat) -> nat
    decreases n, k,
{
    if k == 0 || k > children_of(nodes[n as int]).len() {
        0
    } else {
        let c = children_of(nodes[n as int])[k - 1];
        children_size(nodes, n, (k - 1) as nat) + if c < n {
            subtree_size(nodes, c)
        } else {
            0
        }
    }
}

/// The number of nodes that preorder walks from `roots` visit.
pub open spec fn forest_size(nodes: Seq<Syntax>, roots: Seq<usize>) -> nat
    decreases roots.len(),
{
    if roots.len() == 0 {
        0
    } else {
        forest_size(nodes, roots.drop_last()) + subtree_size(nodes, roots.last())
    }
}

proof fn lemma_children_size(nodes: Seq<Syntax>, n: usize, k: nat)
    requires
        k <= children_of(nodes[n as int]).len(),
        forall|j: int| 0 <= j < children_of(nodes[n as int]).len() ==> #[trigger] children_of(nodes[n as int])[j] < n,
    ensures
        forest_size(nodes, children_of(nodes[n as int]).take(k as int)) == children_size(nodes, n, k),
    decreases k,
{
    if k > 0 {
        let ch = children_of(nodes[n as int]);
        assert(ch.take(k as int).drop_last() =~= ch.take(k - 1));
        lemma_children_size(nodes, n, (k - 1) as nat);
    }
}

/// Unique ids are distinct on `s`, and below `next`.
pub open spec fn ids_fresh(infos: Seq<SyntaxInfo>, s: Set<int>, next: nat) -> bool {
    &&& forall|a: int, b: int|
        #![trigger s.contains(a), s.contains(b)]
        s.contains(a) && s.contains(b) && a != b ==> infos[a].unique_id != infos[b].unique_id
    &&& forall|a: int| #[trigger] s.contains(a) ==> 0 <= a < infos.len() && infos[a].unique_id < next
}

/// Give every node an id from a running counter, in preorder.
fn set_unique_id(
    arena: &mut Arena,
    nodes: &[usize],
    next_id: &mut u32,
    Ghost(bound): Ghost<nat>,
    Ghost(s0): Ghost<Set<int>>,
) -> (s1: Ghost<Set<int>>)
    requires
        old(arena).wf(),
        bound <= old(arena).nodes@.len(),
        forall|k: int| 0 <= k < nodes@.len() ==> #[trigger] nodes@[k] < bound,
        *old(next_id) + forest_size(old(arena).nodes@, nodes@) <= u32::MAX,
        ids_fresh(old(arena).infos@, s0, *old(next_id) as nat),
    ensures
        final(arena).wf(),
        final(arena).nodes@ == old(arena).nodes@,
        only_unique_ids(old(arena).infos@, final(arena).infos@),
        *final(next_id) == *old(next_id) + forest_size(old(arena).nodes@, nodes@),
        ids_fresh(final(arena).infos@, s1@, *final(next_id) as nat),
        s0.subset_of(s1@),
        forall|m: usize| #[trigger] in_forest(old(arena).nodes@, nodes@, m) ==> s1@.contains(m as int)
            && *old(next_id) <= final(arena).infos@[m as int].unique_id,
        forall|x: int| 0 <= x < old(arena).infos@.len() ==> (#[trigger] final(arena).infos@[x]).unique_id
            == old(arena).infos@[x].unique_id || (in_forest(old(arena).nodes@, nodes@, x as usize)
            && *old(next_id) <= final(arena).infos@[x].unique_id),
    decreases bound,
{
    let ghost start = arena.infos@;
    let ghost start_id = *next_id;
    let ghost mut s = s0;
    let mut i: usize = 0;
    assert(nodes@.take(0) =~= Seq::<usize>::empty());
    while i < nodes.len()
        invariant
            arena.wf(),
            arena.nodes@ == old(arena).nodes@,
            bound <= arena.nodes@.len(),
            forall|k: int| 0 <= k < nodes@.len() ==> #[trigger] nodes@[k] < bound,
            only_unique_ids(start, arena.infos@),
            i <= nodes@.len(),
            *next_id == start_id + forest_size(arena.nodes@, nodes@.take(i as int)),
            start_id + forest_size(arena.nodes@, nodes@) <= u32::MAX,
            ids_fresh(arena.infos@, s, *next_id as nat),
            s0.subset_of(s),
            forall|m: usize| #[trigger] in_forest(arena.nodes@, nodes@.take(i as int), m) ==> s.contains(m as int)
                && start_id <= arena.infos@[m as int].unique_id,
            start == old(arena).infos@,
            forall|x: int| 0 <= x < start.len() ==> (#[trigger] arena.infos@[x]).unique_id == start[x].unique_id
                || (in_forest(arena.nodes@, nodes@, x as usize) && start_id <= arena.infos@[x].unique_id),
        decreases nodes@.len() - i,
    {
        proof {
            lemma_forest_size_prefix(arena.nodes@, nodes@, (i + 1) as nat);
            assert(nodes@.take(i + 1).drop_last() =~= nodes@.take(i as int));
        }
        let node = nodes[i];
        let ghost pre = arena.infos@;
        let ghost id_before = *next_id;
        assert(reachable(arena.nodes@, nodes@[i as int], node));
        assert(in_forest(arena.nodes@, nodes@, node));
        let info = SyntaxInfo { unique_id: *next_id, ..arena.infos[node] };
        arena.infos.set(node, info);
        *next_id = *next_id + 1;
        proof {
            s = s.insert(node as int);
        }
        let children = children_copy(arena, node);
        assert forall|k: int| 0 <= k < children@.len() implies #[trigger] children@[k] < node by {
            assert(children_of(arena.nodes@[node as int])[k] < node);
        }
        proof {
            lemma_children_size(arena.nodes@, node, children@.len());
            assert(children@.take(children@.len() as int) =~= children@);
        }
        let ghost mid_s = s;
        let ghost mid = arena.infos@;
        let Ghost(s2) = set_unique_id(arena, children.as_slice(), next_id, Ghost(node as nat), Ghost(s));
        proof {
            s = s2;
            let nodes_v = arena.nodes@;
            assert forall|x: usize| #[trigger] in_forest(nodes_v, children@, x) implies in_forest(nodes_v, nodes@, x) by {
                let k = choose|k: int| 0 <= k < children@.len() && reachable(nodes_v, #[trigger] children@[k], x);
                assert(children_of(nodes_v[node as int])[k] == children@[k]);
                assert(reachable(nodes_v, node, x));
                assert(reachable(nodes_v, nodes@[i as int], x));
            }
            assert forall|x: int| 0 <= x < start.len() implies (#[trigger] arena.infos@[x]).unique_id == start[x].unique_id
                || (in_forest(arena.nodes@, nodes@, x as usize) && start_id <= arena.infos@[x].unique_id) by {
                if arena.infos@[x].unique_id != mid[x].unique_id {
                    assert(in_forest(nodes_v, children@, x as usize));
                    assert(start_id <= id_before);
                } else if x != node as int {
                    assert(mid[x] == pre[x]);
                }
            }
            assert forall|m: usize| #[trigger] in_forest(arena.nodes@, nodes@.take(i + 1), m) implies s.contains(m as int)
                && start_id <= arena.infos@[m as int].unique_id by {
                let j = choose|j: int| 0 <= j < nodes@.take(i + 1).len() && reachable(arena.nodes@, #[trigger] nodes@.take(i + 1)[j], m);
                lemma_reachable_bound(arena.nodes@, nodes@.take(i + 1)[j], m);
                if j < i {
                    assert(nodes@.take(i as int)[j] == nodes@.take(i + 1)[j]);
                    assert(in_forest(arena.nodes@, nodes@.take(i as int), m));
                    assert(start_id <= id_before);
                    assert(0 <= m < start.len());
                    if arena.infos@[m as int].unique_id != mid[m as int].unique_id {
                        assert(arena.infos@[m as int].unique_id == mid[m as int].unique_id || id_before + 1
                            <= arena.infos@[m as int].unique_id);
                    } else if m != node {
                        assert(mid[m as int] == pre[m as int]);
                    }
                } else if m == node {
                    assert(mid_s.contains(node as int));
                    assert(mid[m as int].unique_id == id_before);
                    assert(start_id <= id_before);
                } else {
                    assert(start_id <= id_before);
                    let k = choose|k: int|
                        0 <= k < children_of(arena.nodes@[node as int]).len() && {
                            let c = #[trigger] children_of(arena.nodes@[node as int])[k];
                            c < node && reachable(arena.nodes@, c, m)
                        };
                    assert(children@[k] == children_of(arena.nodes@[node as int])[k]);
                    assert(in_forest(arena.nodes@, children@, m));
                }
            }
        }
        i = i + 1;
    }
    assert(nodes@.take(i as int) =~= nodes@);
    Ghost(s)
}

proof fn lemma_forest_size_prefix(nodes: Seq<Syntax>, roots: Seq<usize>, k: nat)
    requires
        k <= roots.len(),
    ensures
        forest_size(nodes, roots.take(k as int)) <= forest_size(nodes, roots),
    decreases roots.len(),
{
    if k < roots.len() {
        assert(roots.drop_last().take(k as int) =~= roots.take(k as int));
        lemma_forest_size_prefix(nodes, roots.drop_last(), k);
    } else {
        assert(roots.take(k as int) =~= roots);
    }
}

/// Whitespace as `char::is_whitespace` defines it: the Unicode
/// `White_Space` property.
pub open spec fn is_whitespace(c: char) -> bool {
    c == '\t' || c == '\n' || c == '\x0B' || c == '\x0C' || c == '\r' || c == ' ' || c == '\u{85}'
        || c == '\u{A0}' || c == '\u{1680}' || ('\u{2000}' <= c && c <= '\u{200A}') || c == '\u{2028}'
        || c == '\u{2029}' || c == '\u{202F}' || c == '\u{205F}' || c == '\u{3000}'
}

fn is_whitespace_exec(c: char) -> (r: bool)
    ensures
        r == is_whitespace(c),
{
    c == '\t' || c == '\n' || c == '\x0B' || c == '\x0C' || c == '\r' || c == ' ' || c == '\u{85}'
        || c == '\u{A0}' || c == '\u{1680}' || ('\u{2000}' <= c && c <= '\u{200A}') || c == '\u{2028}'
        || c == '\u{2029}' || c == '\u{202F}' || c == '\u{205F}' || c == '\u{3000}'
}

/// `l` without its leading whitespace.
pub open spec fn trim_start(l: Seq<char>) -> Seq<char>
    decreases l.len(),
{
    if l.len() > 0 && is_whitespace(l[0]) {
        trim_start(l.drop_first())
    } else {
        l
    }
}

/// Lines joined with newlines between them.
pub open spec fn join_lines(ls: Seq<Seq<char>>) -> Seq<char>
    decreases ls.len(),
{
    if ls.len() == 0 {
        seq![]
    } else if ls.len() == 1 {
        ls[0]
    } else {
        join_lines(ls.drop_last()) + seq!['\n'] + ls.last()
    }
}

/// The text by which an atom is compared: a comment of several lines is
/// compared without the indentation of its lines.
pub open spec fn normalized(text: Seq<char>, kind: AtomKind) -> Seq<char> {
    if kind == AtomKind::Comment && text_lines(text).len() > 1 {
        join_lines(text_lines(text).map_values(|l: Seq<char>| trim_start(l)))
    } else {
        text
    }
}

fn trim_start_exec(l: &str) -> (r: String)
    ensures
        r@ == trim_start(l@),
{
    let n = l.unicode_len();
    let mut i: usize = 0;
    assert(l@.skip(0) =~= l@);
    while i < n && is_whitespace_exec(l.get_char(i))
        invariant
            n == l@.len(),
            i <= n,
            trim_start(l@.skip(i as int)) == trim_start(l@),
        decreases n - i,
    {
        assert(l@.skip(i as int).drop_first() =~= l@.skip(i + 1));
        i = i + 1;
    }
    let r = l.substring_char(i, n).to_owned();
    assert(r@ =~= l@.skip(i as int));
    r
}

/// The text of an atom as it is compared.
pub fn normalize(content: &str, kind: AtomKind) -> (r: String)
    ensures
        r@ == normalized(content@, kind),
{
    let lines = split_lines(content);
    if kind == AtomKind::Comment && lines.len() > 1 {
        let ghost trimmed = text_lines(content@).map_values(|l: Seq<char>| trim_start(l));
        let mut res = String::new();
        let mut i: usize = 0;
        while i < lines.len()
            invariant
                lines.deep_view() == text_lines(content@),
                trimmed == text_lines(content@).map_values(|l: Seq<char>| trim_start(l)),
                i <= lines@.len(),
                res@ == join_lines(trimmed.take(i as int)),
            decreases lines@.len() - i,
        {
            let ghost before = res@;
            if i > 0 {
                res.append("\n");
            }
            let line = trim_start_exec(lines[i].as_str());
            res.append(line.as_str());
            proof {
                reveal_strlit("\n");
                let tk = trimmed.take(i + 1);
                assert(tk.drop_last() =~= trimmed.take(i as int));
                assert(line@ == trimmed[i as int]);
                if i == 0 {
                    assert(res@ =~= line@);
                } else {
                    assert(res@ =~= before + seq!['\n'] + line@);
                }
            }
            i = i + 1;
        }
        assert(trimmed.take(i as int) =~= trimmed);
        res
    } else {
        String::from_str(content)
    }
}

/// What decides whether two nodes are equal: their texts, the content ids
/// of their children, whether they are lists, and an atom's kind.
pub type KeyView = (Seq<char>, Option<Seq<char>>, Seq<u32>, bool, Option<AtomKind>);

pub struct ContentKey {
    pub text: String,
    pub close: Option<String>,
    pub children: Vec<u32>,
    pub is_list: bool,
    pub kind: Option<AtomKind>,
}

impl View for ContentKey {
    type V = KeyView;

    open spec fn view(&self) -> KeyView {
        (
            self.text@,
            match self.close {
                Some(c) => Some(c@),
                None => None,
            },
            self.children@,
            self.is_list,
            self.kind,
        )
    }
}

pub open spec fn keys_view(keys: Seq<ContentKey>) -> Seq<KeyView> {
    keys.map_values(|k: ContentKey| k@)
}

/// The content key of node `n`.
pub open spec fn key_of(nodes: Seq<Syntax>, infos: Seq<SyntaxInfo>, n: usize) -> KeyView {
    match nodes[n as int] {
        Syntax::List { open_content, close_content, children, .. } => (
            open_content@,
            Some(close_content@),
            children@.map_values(|c: usize| infos[c as int].content_id),
            true,
            None,
        ),
        Syntax::Atom { content, kind, .. } => (normalized(content@, kind), None, seq![], false, Some(kind)),
    }
}

fn keys_equal(a: &ContentKey, b: &ContentKey) -> (r: bool)
    ensures
        r == (a@ == b@),
{
    if a.is_list != b.is_list || a.text != b.text {
        return false;
    }
    let close_same = match (&a.close, &b.close) {
        (Some(x), Some(y)) => {
            let e = *x == *y;
            assert(a@.1 == Some(x@));
            assert(b@.1 == Some(y@));
            assert(e ==> a@.1 == b@.1);
            e
        },
        (None, None) => true,
        _ => false,
    };
    if !close_same {
        return false;
    }
    assert(a@.1 == b@.1);
    let kind_same = match (a.kind, b.kind) {
        (Some(x), Some(y)) => x == y,
        (None, None) => true,
        _ => false,
    };
    if !kind_same || a.children.len() != b.children.len() {
        return false;
    }
    let mut i: usize = 0;
    while i < a.children.len()
        invariant
            a.children@.len() == b.children@.len(),
            i <= a.children@.len(),
            forall|j: int| 0 <= j < i ==> a.children@[j] == b.children@[j],
        decreases a.children@.len() - i,
    {
        if a.children[i] != b.children[i] {
            return false;
        }
        i = i + 1;
    }
    assert(a.children@ =~= b.children@);
    assert(a@ == b@);
    true
}

fn find_key(keys: &Vec<ContentKey>, key: &ContentKey) -> (r: Option<usize>)
    ensures
        match r {
            Some(i) => i < keys@.len() && keys_view(keys@)[i as int] == key@,
            None => forall|i: int| 0 <= i < keys@.len() ==> keys_view(keys@)[i] != key@,
        },
{
    let mut i: usize = 0;
    while i < keys.len()
        invariant
            i <= keys@.len(),
            forall|j: int| 0 <= j < i ==> keys_view(keys@)[j] != key@,
        decreases keys@.len() - i,
    {
        if keys_equal(&keys[i], key) {
            return Some(i);
        }
        i = i + 1;
    }
    None
}

/// The content key of node `n`, with the content ids its children have now.
fn content_key(arena: &Arena, n: usize) -> (r: ContentKey)
    requires
        arena.wf(),
        n < arena.nodes@.len(),
    ensures
        r@ == key_of(arena.nodes@, arena.infos@, n),
{
    match &arena.nodes[n] {
        Syntax::List { open_content, close_content, children, .. } => {
            let mut ids: Vec<u32> = Vec::new();
            let mut i: usize = 0;
            while i < children.len()
                invariant
                    arena.wf(),
                    n < arena.nodes@.len(),
                    children@ == children_of(arena.nodes@[n as int]),
                    i <= children@.len(),
                    ids@ == children@.take(i as int).map_values(|c: usize| arena.infos@[c as int].content_id),
                decreases children@.len() - i,
            {
                assert(children@[i as int] < n);
                ids.push(arena.infos[children[i]].content_id);
                assert(ids@ =~= children@.take(i + 1).map_values(|c: usize| arena.infos@[c as int].content_id));
                i = i + 1;
            }
            assert(children@.take(i as int) =~= children@);
            ContentKey {
                text: open_content.clone(),
                close: Some(close_content.clone()),
                children: ids,
                is_list: true,
                kind: None,
            }
        },
        Syntax::Atom { content, kind, .. } => ContentKey {
            text: normalize(content.as_str(), *kind),
            close: None,
            children: Vec::new(),
            is_list: false,
            kind: Some(*kind),
        },
    }
}

/// The content ids of the nodes in `s` are positions, counted from one, in
/// a table of distinct keys, and each node's key is at its position.
pub open spec fn hash_consed(nodes: Seq<Syntax>, infos: Seq<SyntaxInfo>, keys: Seq<KeyView>, s: Set<int>) -> bool {
    &&& forall|a: int, b: int|
        0 <= a < keys.len() && 0 <= b < keys.len() && a != b ==> #[trigger] keys[a] != #[trigger] keys[b]
    &&& forall|n: int|
        #[trigger] s.contains(n) ==> {
            &&& 0 <= n < nodes.len()
            &&& 0 < infos[n].content_id <= keys.len()
            &&& keys[infos[n].content_id - 1] == key_of(nodes, infos, n as usize)
        }
    &&& closed(nodes, s)
    &&& s.finite()
    &&& keys.len() <= s.len()
}

/// Give every node the content id of its key, children first; a key seen
/// for the first time gets the next id.
fn set_content_id(
    arena: &mut Arena,
    nodes: &[usize],
    keys: &mut Vec<ContentKey>,
    Ghost(bound): Ghost<nat>,
    Ghost(s0): Ghost<Set<int>>,
) -> (s1: Ghost<Set<int>>)
    requires
        old(arena).wf(),
        old(arena).nodes@.len() < u32::MAX,
        bound <= old(arena).nodes@.len(),
        forall|k: int| 0 <= k < nodes@.len() ==> #[trigger] nodes@[k] < bound,
        hash_consed(old(arena).nodes@, old(arena).infos@, keys_view(old(keys)@), s0),
    ensures
        final(arena).wf(),
        final(arena).nodes@ == old(arena).nodes@,
        only_content_ids(old(arena).infos@, final(arena).infos@),
        hash_consed(final(arena).nodes@, final(arena).infos@, keys_view(final(keys)@), s1@),
        s0.subset_of(s1@),
        forall|m: int| #[trigger] s0.contains(m) ==> final(arena).infos@[m] == old(arena).infos@[m],
        forall|m: int| #[trigger] s1@.contains(m) && !s0.contains(m) ==> m < bound,
        forall|k: int| 0 <= k < nodes@.len() ==> s1@.contains(#[trigger] nodes@[k] as int),
    decreases bound,
{
    let ghost start = arena.infos@;
    let ghost mut s = s0;
    let mut i: usize = 0;
    while i < nodes.len()
        invariant
            arena.wf(),
            arena.nodes@ == old(arena).nodes@,
            arena.nodes@.len() < u32::MAX,
            bound <= arena.nodes@.len(),
            forall|k: int| 0 <= k < nodes@.len() ==> #[trigger] nodes@[k] < bound,
            only_content_ids(start, arena.infos@),
            start == old(arena).infos@,
            i <= nodes@.len(),
            hash_consed(arena.nodes@, arena.infos@, keys_view(keys@), s),
            s0.subset_of(s),
            forall|m: int| #[trigger] s0.contains(m) ==> arena.infos@[m] == start[m],
            forall|m: int| #[trigger] s.contains(m) && !s0.contains(m) ==> m < bound,
            forall|k: int| 0 <= k < i ==> s.contains(#[trigger] nodes@[k] as int),
        decreases nodes@.len() - i,
    {
        let node = nodes[i];
        let children = children_copy(arena, node);
        assert forall|k: int| 0 <= k < children@.len() implies #[trigger] children@[k] < node by {
            assert(children_of(arena.nodes@[node as int])[k] < node);
        }
        let ghost pre = arena.infos@;
        let Ghost(s2) = set_content_id(arena, children.as_slice(), keys, Ghost(node as nat), Ghost(s));
        let ghost cur = arena.infos@;
        let key = content_key(arena, node);
        let found = find_key(keys, &key);
        let ghost kv = keys_view(keys@);
        proof {
            vstd::set_lib::lemma_int_range(0, arena.nodes@.len() as int);
            assert(s2.subset_of(vstd::set_lib::set_int_range(0, arena.nodes@.len() as int)));
            vstd::set_lib::lemma_len_subset(s2, vstd::set_lib::set_int_range(0, arena.nodes@.len() as int));
        }
        proof {
            assert forall|k: int| 0 <= k < children_of(arena.nodes@[node as int]).len()
                implies s2.contains(#[trigger] children_of(arena.nodes@[node as int])[k] as int) by {
                assert(children@[k] == children_of(arena.nodes@[node as int])[k]);
            }
        }
        let id: u32 = match found {
            Some(idx) => {
                (idx + 1) as u32
            },
            None => {
                proof {
                    if s2.contains(node as int) {
                        assert(kv[cur[node as int].content_id - 1] == key@);
                    }
                    vstd::set_lib::lemma_int_range(0, arena.nodes@.len() as int);
                    assert(s2.insert(node as int).subset_of(vstd::set_lib::set_int_range(0, arena.nodes@.len() as int)));
                    vstd::set_lib::lemma_len_subset(s2.insert(node as int), vstd::set_lib::set_int_range(0, arena.nodes@.len() as int));
                }
                keys.push(key);
                keys.len() as u32
            },
        };
        let ghost kv2 = keys_view(keys@);
        let info = SyntaxInfo { content_id: id, ..arena.infos[node] };
        arena.infos.set(node, info);
        proof {
            let s3 = s2.insert(node as int);
            let now = arena.infos@;
            assert(kv2[id - 1] == key_of(arena.nodes@, cur, node));
            if s2.contains(node as int) {
                // The node was seen before: its key is where its id says.
                assert(kv[cur[node as int].content_id - 1] == key_of(arena.nodes@, cur, node));
                assert(now =~= cur);
            }
            assert forall|m: int| #[trigger] s3.contains(m) implies key_of(arena.nodes@, now, m as usize)
                == key_of(arena.nodes@, cur, m as usize) by {
                if let Syntax::List { children: ch, .. } = arena.nodes@[m] {
                    assert forall|j: int| 0 <= j < ch@.len() implies #[trigger] ch@[j] != node || s2.contains(node as int) by {
                        if m != node as int {
                            assert(children_of(arena.nodes@[m])[j] == ch@[j]);
                        } else {
                            assert(ch@[j] < node);
                        }
                    }
                    assert(ch@.map_values(|c: usize| now[c as int].content_id) =~= ch@.map_values(
                        |c: usize| cur[c as int].content_id,
                    ));
                }
            }
            if found is None {
                assert(kv2 =~= kv.push(key@));
                assert forall|a: int, b: int|
                    0 <= a < kv2.len() && 0 <= b < kv2.len() && a != b implies #[trigger] kv2[a] != #[trigger] kv2[b] by {
                    if a < kv.len() && b < kv.len() {
                        assert(kv2[a] == kv[a] && kv2[b] == kv[b]);
                    } else if a < kv.len() {
                        assert(kv2[a] == kv[a]);
                    } else if b < kv.len() {
                        assert(kv2[b] == kv[b]);
                    }
                }
            } else {
                assert(kv2 =~= kv);
            }
            assert(hash_consed(arena.nodes@, arena.infos@, kv2, s3));
            s = s3;
        }
        i = i + 1;
    }
    Ghost(s)
}

fn init_info_single(
    arena: &mut Arena,
    roots: &[usize],
    next_id: &mut u32,
    Ghost(s0): Ghost<Set<int>>,
) -> (s1: Ghost<Set<int>>)
    requires
        old(arena).wf(),
        old(arena).nodes@.len() < u32::MAX,
        forall|k: int| 0 <= k < roots@.len() ==> #[trigger] roots@[k] < old(arena).nodes@.len(),
        *old(next_id) + forest_size(old(arena).nodes@, roots@) <= u32::MAX,
        ids_fresh(old(arena).infos@, s0, *old(next_id) as nat),
    ensures
        final(arena).wf(),
        final(arena).nodes@ == old(arena).nodes@,
        final(arena).infos@.len() == old(arena).infos@.len(),
        forall|i: int| 0 <= i < old(arena).infos@.len() ==> (#[trigger] final(arena).infos@[i]).content_id == old(arena).infos@[i].content_id
            && final(arena).infos@[i].change == old(arena).infos@[i].change,
        *final(next_id) == *old(next_id) + forest_size(old(arena).nodes@, roots@),
        ids_fresh(final(arena).infos@, s1@, *final(next_id) as nat),
        s0.subset_of(s1@),
        forall|m: usize| #[trigger] in_forest(old(arena).nodes@, roots@, m) ==> s1@.contains(m as int),
        forall|m: usize| #[trigger] in_forest(old(arena).nodes@, roots@, m) ==> {
            &&& parent_fits(old(arena).nodes@, roots@, None, m, final(arena).infos@[m as int].parent)
            &&& prev_fits(old(arena).nodes@, roots@, None, m, final(arena).infos@[m as int].prev)
            &&& depth_fits(old(arena).nodes@, roots@, 0, m, final(arena).infos@[m as int].num_ancestors)
            &&& next_fits(old(arena).nodes@, roots@, None, m, final(arena).infos@[m as int].next)
            &&& *old(next_id) <= final(arena).infos@[m as int].unique_id
        },
        forall|x: int| 0 <= x < old(arena).infos@.len() ==> {
            &&& (final(arena).infos@[x].unique_id == old(arena).infos@[x].unique_id
                || in_forest(old(arena).nodes@, roots@, x as usize))
            &&& (final(arena).infos@[x].next == old(arena).infos@[x].next
                || next_fits(old(arena).nodes@, roots@, None, x as usize, final(arena).infos@[x].next))
            &&& (final(arena).infos@[x].num_ancestors == old(arena).infos@[x].num_ancestors
                || depth_fits(old(arena).nodes@, roots@, 0, x as usize, final(arena).infos@[x].num_ancestors))
            &&& ((#[trigger] final(arena).infos@[x]).parent == old(arena).infos@[x].parent
                || parent_fits(old(arena).nodes@, roots@, None, x as usize, final(arena).infos@[x].parent))
            &&& (final(arena).infos@[x].prev == old(arena).infos@[x].prev
                || prev_fits(old(arena).nodes@, roots@, None, x as usize, final(arena).infos@[x].prev))
        },
{
    let ghost a0 = arena.infos@;
    let len = arena.nodes.len();
    set_next(arena, roots, None, Ghost(len as nat));
    let ghost a1 = arena.infos@;
    set_prev(arena, roots, None, Ghost(len as nat));
    let ghost a2 = arena.infos@;
    set_parent(arena, roots, None, Ghost(len as nat));
    let ghost a3 = arena.infos@;
    set_num_ancestors(arena, roots, 0, Ghost(len as nat));
    let ghost a4 = arena.infos@;
    set_prev_is_contiguous(arena, roots, Ghost(len as nat));
    let ghost a5 = arena.infos@;
    assert forall|i: int| 0 <= i < a0.len() implies (#[trigger] a5[i]).unique_id == a0[i].unique_id
        && a5[i].content_id == a0[i].content_id && a5[i].change == a0[i].change by {
        assert(a1[i].unique_id == a0[i].unique_id && a1[i].content_id == a0[i].content_id && a1[i].change == a0[i].change);
        assert(a2[i].unique_id == a1[i].unique_id && a2[i].content_id == a1[i].content_id && a2[i].change == a1[i].change);
        assert(a3[i].unique_id == a2[i].unique_id && a3[i].content_id == a2[i].content_id && a3[i].change == a2[i].change);
        assert(a4[i].unique_id == a3[i].unique_id && a4[i].content_id == a3[i].content_id && a4[i].change == a3[i].change);
        assert(a5[i].unique_id == a4[i].unique_id && a5[i].content_id == a4[i].content_id && a5[i].change == a4[i].change);
    }
    let s1 = set_unique_id(arena, roots, next_id, Ghost(len as nat), Ghost(s0));
    let ghost a6 = arena.infos@;
    assert forall|i: int| 0 <= i < a0.len() implies (#[trigger] a6[i]).next == a1[i].next by {
        assert(a2[i].next == a1[i].next);
        assert(a3[i].next == a2[i].next);
        assert(a4[i].next == a3[i].next);
        assert(a5[i].next == a4[i].next);
    }
    assert forall|i: int| 0 <= i < a0.len() implies (#[trigger] a6[i]).num_ancestors == a4[i].num_ancestors by {
        assert(a5[i].num_ancestors == a4[i].num_ancestors);
    }
    assert forall|x: int| 0 <= x < a0.len() implies (#[trigger] a4[x]).num_ancestors == a0[x].num_ancestors
        || depth_fits(arena.nodes@, roots@, 0, x as usize, a4[x].num_ancestors) by {
        assert(a1[x].num_ancestors == a0[x].num_ancestors);
        assert(a2[x].num_ancestors == a1[x].num_ancestors);
        assert(a3[x].num_ancestors == a2[x].num_ancestors);
    }
    assert forall|i: int| 0 <= i < a0.len() implies (#[trigger] a6[i]).parent == a3[i].parent
        && a6[i].prev == a2[i].prev by {
        assert(a3[i].prev == a2[i].prev);
        assert(a4[i].parent == a3[i].parent && a4[i].prev == a3[i].prev);
        assert(a5[i].parent == a4[i].parent && a5[i].prev == a4[i].prev);
        assert(a6[i].parent == a5[i].parent && a6[i].prev == a5[i].prev);
    }
    assert forall|x: int| 0 <= x < a0.len() implies (#[trigger] a2[x]).prev == a0[x].prev
        || prev_fits(arena.nodes@, roots@, None, x as usize, a2[x].prev) by {
        assert(a1[x].prev == a0[x].prev);
    }
    assert forall|x: int| 0 <= x < a0.len() implies (#[trigger] a3[x]).parent == a0[x].parent
        || parent_fits(arena.nodes@, roots@, None, x as usize, a3[x].parent) by {
        assert(a1[x].parent == a0[x].parent);
        assert(a2[x].parent == a1[x].parent);
    }
    s1
}

/// Node `m` lies in one of the trees of either side.
pub open spec fn in_trees(nodes: Seq<Syntax>, lhs: Seq<usize>, rhs: Seq<usize>, m: usize) -> bool {
    in_forest(nodes, lhs, m) || in_forest(nodes, rhs, m)
}

/// What the metadata pass establishes for the trees of both sides: unique
/// ids are distinct, and content ids are positive and equal exactly where
/// the content keys are.
pub open spec fn initialised(nodes: Seq<Syntax>, infos: Seq<SyntaxInfo>, lhs: Seq<usize>, rhs: Seq<usize>) -> bool {
    &&& forall|a: usize, b: usize|
        #![trigger in_trees(nodes, lhs, rhs, a), in_trees(nodes, lhs, rhs, b)]
        in_trees(nodes, lhs, rhs, a) && in_trees(nodes, lhs, rhs, b) ==> {
            &&& (a != b ==> infos[a as int].unique_id != infos[b as int].unique_id)
            &&& (infos[a as int].content_id == infos[b as int].content_id <==> key_of(nodes, infos, a)
                == key_of(nodes, infos, b))
        }
    &&& forall|a: usize| #[trigger] in_trees(nodes, lhs, rhs, a) ==> a < nodes.len() && infos[a as int].content_id > 0
}

/// Initialise all the metadata of the nodes of both sides: links, parents,
/// depths, contiguity and unique ids for each side in turn, the left side's
/// ids first, then content ids over both sides.
pub fn init_info(arena: &mut Arena, lhs_roots: &[usize], rhs_roots: &[usize])
    requires
        old(arena).wf(),
        old(arena).nodes@.len() < u32::MAX,
        forall|k: int| 0 <= k < lhs_roots@.len() ==> #[trigger] lhs_roots@[k] < old(arena).nodes@.len(),
        forall|k: int| 0 <= k < rhs_roots@.len() ==> #[trigger] rhs_roots@[k] < old(arena).nodes@.len(),
        forest_size(old(arena).nodes@, lhs_roots@) + forest_size(old(arena).nodes@, rhs_roots@) <= u32::MAX,
    ensures
        final(arena).wf(),
        final(arena).nodes@ == old(arena).nodes@,
        initialised(final(arena).nodes@, final(arena).infos@, lhs_roots@, rhs_roots@),
        final(arena).infos@.len() == old(arena).infos@.len(),
        forall|i: int| 0 <= i < old(arena).infos@.len() ==> (#[trigger] final(arena).infos@[i]).change == old(arena).infos@[i].change,
        forall|m: usize| #[trigger] in_trees(final(arena).nodes@, lhs_roots@, rhs_roots@, m) ==> {
            &&& (parent_fits(final(arena).nodes@, lhs_roots@, None, m, final(arena).infos@[m as int].parent)
                || parent_fits(final(arena).nodes@, rhs_roots@, None, m, final(arena).infos@[m as int].parent))
            &&& (prev_fits(final(arena).nodes@, lhs_roots@, None, m, final(arena).infos@[m as int].prev)
                || prev_fits(final(arena).nodes@, rhs_roots@, None, m, final(arena).infos@[m as int].prev))
            &&& (depth_fits(final(arena).nodes@, lhs_roots@, 0, m, final(arena).infos@[m as int].num_ancestors)
                || depth_fits(final(arena).nodes@, rhs_roots@, 0, m, final(arena).infos@[m as int].num_ancestors))
            &&& (next_fits(final(arena).nodes@, lhs_roots@, None, m, final(arena).infos@[m as int].next)
                || next_fits(final(arena).nodes@, rhs_roots@, None, m, final(arena).infos@[m as int].next))
        },
        forall|a: usize, b: usize|
            #![trigger in_forest(final(arena).nodes@, lhs_roots@, a), in_forest(final(arena).nodes@, rhs_roots@, b)]
            in_forest(final(arena).nodes@, lhs_roots@, a) && !in_forest(final(arena).nodes@, rhs_roots@, a)
                && in_forest(final(arena).nodes@, rhs_roots@, b) ==> final(arena).infos@[a as int].unique_id
                < final(arena).infos@[b as int].unique_id,
{
    let ghost a0 = arena.infos@;
    let mut id: u32 = 0;
    let ghost empty = Set::<int>::empty();
    let Ghost(t1) = init_info_single(arena, lhs_roots, &mut id, Ghost(empty));
    let ghost a5 = arena.infos@;
    let ghost mid_id = id;
    let Ghost(t2) = init_info_single(arena, rhs_roots, &mut id, Ghost(t1));
    let ghost a6 = arena.infos@;
    let mut existing: Vec<ContentKey> = Vec::new();
    let len = arena.nodes.len();
    assert(keys_view(existing@) =~= Seq::<KeyView>::empty());
    let Ghost(c1) = set_content_id(arena, lhs_roots, &mut existing, Ghost(len as nat), Ghost(empty));
    let ghost a7 = arena.infos@;
    let Ghost(c2) = set_content_id(arena, rhs_roots, &mut existing, Ghost(len as nat), Ghost(c1));
    proof {
        assert forall|i: int| 0 <= i < a0.len() implies (#[trigger] arena.infos@[i]).change == a0[i].change
            && arena.infos@[i].parent == a6[i].parent && arena.infos@[i].prev == a6[i].prev
            && arena.infos@[i].num_ancestors == a6[i].num_ancestors && arena.infos@[i].next == a6[i].next
            && arena.infos@[i].unique_id == a6[i].unique_id by {
            assert(a7[i].change == a6[i].change && a7[i].parent == a6[i].parent && a7[i].prev == a6[i].prev
                && a7[i].num_ancestors == a6[i].num_ancestors && a7[i].next == a6[i].next
                && a7[i].unique_id == a6[i].unique_id);
            assert(arena.infos@[i].change == a7[i].change);
        }
        assert forall|m: usize| #[trigger] in_trees(arena.nodes@, lhs_roots@, rhs_roots@, m) implies {
            &&& (parent_fits(arena.nodes@, lhs_roots@, None, m, arena.infos@[m as int].parent)
                || parent_fits(arena.nodes@, rhs_roots@, None, m, arena.infos@[m as int].parent))
            &&& (prev_fits(arena.nodes@, lhs_roots@, None, m, arena.infos@[m as int].prev)
                || prev_fits(arena.nodes@, rhs_roots@, None, m, arena.infos@[m as int].prev))
            &&& (depth_fits(arena.nodes@, lhs_roots@, 0, m, arena.infos@[m as int].num_ancestors)
                || depth_fits(arena.nodes@, rhs_roots@, 0, m, arena.infos@[m as int].num_ancestors))
            &&& (next_fits(arena.nodes@, lhs_roots@, None, m, arena.infos@[m as int].next)
                || next_fits(arena.nodes@, rhs_roots@, None, m, arena.infos@[m as int].next))
        } by {
            if in_forest(arena.nodes@, rhs_roots@, m) {
            } else {
                let j = choose|j: int| 0 <= j < lhs_roots@.len() && reachable(arena.nodes@, #[trigger] lhs_roots@[j], m);
                lemma_reachable_bound(arena.nodes@, lhs_roots@[j], m);
                assert(0 <= m < a5.len());
            }
        }
        let nodes = arena.nodes@;
        let infos = arena.infos@;
        let kv = keys_view(existing@);
        assert forall|m: usize| #[trigger] in_trees(nodes, lhs_roots@, rhs_roots@, m) implies c2.contains(m as int) && t2.contains(m as int) by {
            if in_forest(nodes, lhs_roots@, m) {
                let j = choose|j: int| 0 <= j < lhs_roots@.len() && reachable(nodes, #[trigger] lhs_roots@[j], m);
                assert(c1.contains(lhs_roots@[j] as int));
                lemma_closed_reachable(nodes, c2, lhs_roots@[j], m);
            } else {
                let j = choose|j: int| 0 <= j < rhs_roots@.len() && reachable(nodes, #[trigger] rhs_roots@[j], m);
                lemma_closed_reachable(nodes, c2, rhs_roots@[j], m);
            }
        }
        assert forall|a: usize, b: usize|
            in_trees(nodes, lhs_roots@, rhs_roots@, a) && in_trees(nodes, lhs_roots@, rhs_roots@, b) implies {
                &&& (a != b ==> infos[a as int].unique_id != infos[b as int].unique_id)
                &&& (infos[a as int].content_id == infos[b as int].content_id <==> key_of(nodes, infos, a)
                    == key_of(nodes, infos, b))
            } by {
            assert(t2.contains(a as int) && t2.contains(b as int));
            assert(c2.contains(a as int) && c2.contains(b as int));
            assert(infos[a as int].unique_id == a6[a as int].unique_id);
            assert(infos[b as int].unique_id == a6[b as int].unique_id);
            let ia = infos[a as int].content_id - 1;
            let ib = infos[b as int].content_id - 1;
            assert(kv[ia] == key_of(nodes, infos, a));
            assert(kv[ib] == key_of(nodes, infos, b));
        }
        assert forall|a: usize, b: usize|
            in_forest(nodes, lhs_roots@, a) && !in_forest(nodes, rhs_roots@, a) && in_forest(nodes, rhs_roots@, b)
            implies infos[a as int].unique_id < infos[b as int].unique_id by {
            let j = choose|j: int| 0 <= j < lhs_roots@.len() && reachable(nodes, #[trigger] lhs_roots@[j], a);
            lemma_reachable_bound(nodes, lhs_roots@[j], a);
            assert(t1.contains(a as int));
            assert(a5[a as int].unique_id < mid_id);
            assert(a6[a as int].unique_id == a5[a as int].unique_id);
            assert(mid_id <= a6[b as int].unique_id);
        }
    }
}

/// Content ids ignore change and position: after the metadata pass, two
/// atoms of the trees with the same text and kind share a content id,
/// whatever their change kinds and spans, and two atoms of different kinds
/// never do.
pub proof fn lemma_atom_content_ids(
    nodes: Seq<Syntax>,
    infos: Seq<SyntaxInfo>,
    lhs: Seq<usize>,
    rhs: Seq<usize>,
    a: usize,
    b: usize,
)
    requires
        initialised(nodes, infos, lhs, rhs),
        in_trees(nodes, lhs, rhs, a),
        in_trees(nodes, lhs, rhs, b),
        nodes[a as int] is Atom,
        nodes[b as int] is Atom,
    ensures
        ({
            let (ta, ka) = match nodes[a as int] {
                Syntax::Atom { content, kind, .. } => (content@, kind),
                _ => (seq![], AtomKind::Normal),
            };
            let (tb, kb) = match nodes[b as int] {
                Syntax::Atom { content, kind, .. } => (content@, kind),
                _ => (seq![], AtomKind::Normal),
            };
            &&& (ta == tb && ka == kb ==> infos[a as int].content_id == infos[b as int].content_id)
            &&& (ka != kb ==> infos[a as int].content_id != infos[b as int].content_id)
        }),
{
    assert(in_trees(nodes, lhs, rhs, a) && in_trees(nodes, lhs, rhs, b));
}

/// Every node of the trees of both sides has a unique id of its own and a
/// content id above zero once the metadata pass has run.
pub proof fn lemma_ids_unique(
    nodes: Seq<Syntax>,
    infos: Seq<SyntaxInfo>,
    lhs: Seq<usize>,
    rhs: Seq<usize>,
    a: usize,
    b: usize,
)
    requires
        initialised(nodes, infos, lhs, rhs),
        in_trees(nodes, lhs, rhs, a),
        in_trees(nodes, lhs, rhs, b),
    ensures
        a != b ==> infos[a as int].unique_id != infos[b as int].unique_id,
        infos[a as int].content_id > 0,
{
    assert(in_trees(nodes, lhs, rhs, a) && in_trees(nodes, lhs, rhs, b));
}

} // verus!
