//! Directed acyclic graphs of identified nodes.
//!
//! A [`Dag`] keeps its nodes in a vector and its edges as indices into that
//! vector. Edges stand for dependencies, so the order that matters is the one
//! in which a node comes after all of its children.
use crate::ident;
use crate::ident::Ident;
use vstd::prelude::*;

verus! {

/// A node of a graph: it knows its own identifier and those of its children.
pub trait GraphNode: Sized {
    /// The type of the identifiers.
    type NodeId: Ident;

    /// The identifier of this node.
    spec fn node_id(&self) -> <Self::NodeId as View>::V;

    /// The identifiers of the nodes that this node has an edge to.
    spec fn node_children(&self) -> Seq<<Self::NodeId as View>::V>;

    /// Identifier for a node, unique among nodes in the set under consideration.
    fn id(&self) -> (r: Self::NodeId)
        ensures
            r@ == self.node_id(),
    ;

    /// Identifiers of nodes that have an edge from this node to that node.
    fn child_ids(&self) -> (r: Vec<Self::NodeId>)
        ensures
            r@.len() == self.node_children().len(),
            forall|i: int| 0 <= i < r@.len() ==> (#[trigger] r@[i])@ == self.node_children()[i],
    ;
}

/// An adjacency list: entry `i` holds the destinations of the edges that start
/// at node `i`.
pub type Graph = Seq<Seq<usize>>;

/// Every edge leads to a node of the graph.
pub open spec fn in_bounds(g: Graph) -> bool {
    forall|i: int, j: int|
        #![trigger g[i][j]]
        0 <= i < g.len() && 0 <= j < g[i].len() ==> g[i][j] < g.len()
}

/// There is an edge from `a` to `b`.
pub open spec fn has_edge(g: Graph, a: usize, b: usize) -> bool {
    a < g.len() && g[a as int].contains(b)
}

/// Consecutive entries of `w` are joined by edges.
pub open spec fn is_walk(g: Graph, w: Seq<usize>) -> bool {
    &&& w.len() > 0
    &&& forall|i: int| 0 <= i < w.len() - 1 ==> has_edge(g, #[trigger] w[i], w[i + 1])
}

/// `b` can be reached from `a` over zero or more edges.
pub open spec fn reaches(g: Graph, a: usize, b: usize) -> bool {
    exists|w: Seq<usize>| #[trigger] is_walk(g, w) && w.first() == a && w.last() == b
}

/// `v` can be reached from itself over at least one edge.
pub open spec fn on_cycle(g: Graph, v: usize) -> bool {
    exists|w: Seq<usize>|
        #[trigger] is_walk(g, w) && w.len() > 1 && w.first() == v && w.last() == v
}

/// No node can be reached from itself.
pub open spec fn acyclic(g: Graph) -> bool {
    forall|v: usize| v < g.len() ==> !on_cycle(g, v)
}

/// Nothing occurs twice in `order`, and every node in it comes after all its
/// children.
pub open spec fn children_first(g: Graph, order: Seq<usize>) -> bool {
    &&& order.no_duplicates()
    &&& forall|i: int| 0 <= i < order.len() ==> (#[trigger] order[i]) < g.len()
    &&& forall|i: int, b: usize|
        #![trigger has_edge(g, order[i], b)]
        0 <= i < order.len() && has_edge(g, order[i], b) ==> order.take(i).contains(b)
}

/// What a depth-first search comes to: the nodes that it closed, in the order
/// in which it closed them, and the node at which it noticed a cycle, if any.
pub struct Outcome {
    pub order: Seq<usize>,
    pub cycle: Option<usize>,
}

/// Whether one of `children` lies on `path`.
pub open spec fn turns_back(children: Seq<usize>, path: Seq<usize>) -> bool {
    exists|j: int| 0 <= j < children.len() && path.contains(#[trigger] children[j])
}

/// A depth-first search from `v`, below the open nodes `path`, where `done`
/// has been closed already: the children of a node are searched from the last
/// to the first, the node is closed after them, and the search ends where a
/// node has an edge to an open one. (A path never holds more nodes than the
/// graph does; the test on its length only makes that plain.)
pub open spec fn visit(g: Graph, v: usize, path: Seq<usize>, done: Seq<usize>) -> Outcome
    decreases g.len() - path.len(), 0int,
{
    if done.contains(v) {
        Outcome { order: done, cycle: None }
    } else if path.len() >= g.len() || turns_back(g[v as int], path.push(v)) {
        Outcome { order: done, cycle: Some(v) }
    } else {
        let below = visit_all(g, g[v as int], path.push(v), done);
        if below.cycle is Some {
            below
        } else {
            Outcome { order: below.order.push(v), cycle: None }
        }
    }
}

/// [`visit`] for each of `work`, from the last to the first.
pub open spec fn visit_all(
    g: Graph,
    work: Seq<usize>,
    path: Seq<usize>,
    done: Seq<usize>,
) -> Outcome
    decreases g.len() - path.len(), work.len(),
{
    if work.len() == 0 {
        Outcome { order: done, cycle: None }
    } else {
        let first = visit(g, work.last(), path, done);
        if first.cycle is Some {
            first
        } else {
            visit_all(g, work.drop_last(), path, first.order)
        }
    }
}

/// The depth-first search of a graph from the given sources.
pub open spec fn search(g: Graph, sources: Seq<usize>) -> Outcome {
    visit_all(g, sources, Seq::empty(), Seq::empty())
}

/// What a search comes to that has the stack `stack` still to work through,
/// below the open nodes `path`, with `done` closed: an entry of the stack that
/// is the innermost open node closes it, any other entry is visited.
pub open spec fn finish(
    g: Graph,
    stack: Seq<usize>,
    path: Seq<usize>,
    done: Seq<usize>,
) -> Outcome
    decreases stack.len(),
{
    if stack.len() == 0 {
        Outcome { order: done, cycle: None }
    } else {
        let v = stack.last();
        let rest = stack.drop_last();
        if path.len() > 0 && v == path.last() {
            finish(g, rest, path.drop_last(), done.push(v))
        } else {
            let first = visit(g, v, path, done);
            if first.cycle is Some {
                first
            } else {
                finish(g, rest, path, first.order)
            }
        }
    }
}

/// The open nodes `path` stand on the stack in their order, and no entry above
/// an open node is that node or one below it.
spec fn stack_shape(stack: Seq<usize>, path: Seq<usize>) -> bool
    decreases stack.len(),
{
    if stack.len() == 0 {
        path.len() == 0
    } else if path.len() > 0 && stack.last() == path.last() {
        stack_shape(stack.drop_last(), path.drop_last())
    } else {
        &&& !path.contains(stack.last())
        &&& stack_shape(stack.drop_last(), path)
    }
}

/// Each open node has an edge to the next, and none is open twice.
spec fn open_path(g: Graph, path: Seq<usize>) -> bool {
    &&& path.no_duplicates()
    &&& forall|i: int| 0 <= i < path.len() ==> (#[trigger] path[i]) < g.len()
    &&& forall|i: int|
        0 <= i < path.len() - 1 ==> has_edge(g, #[trigger] path[i], path[i + 1])
}

/// A sequence of distinct numbers below `n` is no longer than `n`.
pub proof fn lemma_distinct_bound(s: Seq<usize>, n: nat)
    requires
        s.no_duplicates(),
        forall|i: int| 0 <= i < s.len() ==> (#[trigger] s[i]) < n,
    ensures
        s.len() <= n,
{
    s.unique_seq_to_set();
    let ints = vstd::set_lib::set_int_range(0, n as int);
    vstd::set_lib::lemma_int_range(0, n as int);
    let mapped = s.to_set().map(|v: usize| v as int);
    assert(mapped.subset_of(ints));
    vstd::set_lib::lemma_len_subset(mapped, ints);
    vstd::set_lib::lemma_map_size(s.to_set(), mapped, |v: usize| v as int);
}

/// What a search from `v` below `path` keeps and finds.
spec fn visit_facts(
    g: Graph,
    from: Seq<usize>,
    path: Seq<usize>,
    done: Seq<usize>,
    out: Outcome,
) -> bool {
    &&& done.is_prefix_of(out.order)
    &&& children_first(g, out.order)
    &&& forall|i: int|
        0 <= i < out.order.len() ==> !path.contains(#[trigger] out.order[i])
    &&& forall|i: int|
        done.len() <= i < out.order.len() ==> reached_from(g, from, #[trigger] out.order[i])
    &&& out.cycle is None ==> forall|i: int|
        0 <= i < from.len() ==> out.order.contains(#[trigger] from[i])
    &&& out.cycle matches Some(u) ==> u < g.len() && on_cycle(g, u)
}

/// `v` can be reached from an entry of `from`.
pub open spec fn reached_from(g: Graph, from: Seq<usize>, v: usize) -> bool {
    exists|i: int| 0 <= i < from.len() && #[trigger] reaches(g, from[i], v)
}

proof fn lemma_reaches_self(g: Graph, v: usize)
    ensures
        reaches(g, v, v),
{
    let w = seq![v];
    assert(is_walk(g, w) && w.first() == v && w.last() == v);
}

/// An edge in front of a walk gives a walk.
proof fn lemma_edge_then_reaches(g: Graph, a: usize, b: usize, c: usize)
    requires
        has_edge(g, a, b),
        reaches(g, b, c),
    ensures
        reaches(g, a, c),
{
    let w = choose|w: Seq<usize>| #[trigger] is_walk(g, w) && w.first() == b && w.last() == c;
    let longer = seq![a] + w;
    assert forall|i: int| 0 <= i < longer.len() - 1 implies has_edge(
        g,
        #[trigger] longer[i],
        longer[i + 1],
    ) by {
        if i > 0 {
            assert(longer[i] == w[i - 1] && longer[i + 1] == w[i - 1 + 1]);
        }
    }
    assert(is_walk(g, longer) && longer.first() == a && longer.last() == c);
}

/// A node with an edge back to its own path lies on a cycle.
proof fn lemma_back_edge(g: Graph, path: Seq<usize>, j: int)
    requires
        open_path(g, path),
        path.len() > 0,
        0 <= j < g[path.last() as int].len(),
        path.contains(g[path.last() as int][j]),
    ensures
        on_cycle(g, path.last()),
{
    let v = path.last();
    let back = g[v as int][j];
    let k = choose|k: int| 0 <= k < path.len() && path[k] == back;
    let w = seq![v] + path.skip(k);
    assert(has_edge(g, v, back));
    assert forall|i: int| 0 <= i < w.len() - 1 implies has_edge(g, #[trigger] w[i], w[i + 1]) by {
        if i > 0 {
            assert(w[i] == path[k + i - 1] && w[i + 1] == path[k + i - 1 + 1]);
        }
    }
    assert(is_walk(g, w) && w.len() > 1 && w.first() == v && w.last() == v);
}

proof fn lemma_visit(g: Graph, v: usize, path: Seq<usize>, done: Seq<usize>)
    requires
        in_bounds(g),
        v < g.len(),
        open_path(g, path),
        !path.contains(v),
        path.len() > 0 ==> has_edge(g, path.last(), v),
        children_first(g, done),
        forall|i: int| 0 <= i < done.len() ==> !path.contains(#[trigger] done[i]),
    ensures
        visit_facts(g, seq![v], path, done, visit(g, v, path, done)),
    decreases g.len() - path.len(), 0int,
{
    let out = visit(g, v, path, done);
    let inner = path.push(v);
    let from = seq![v];
    if done.contains(v) {
        assert(out.order.contains(from[0]));
    } else {
        assert(open_path(g, inner)) by {
            assert forall|i: int| 0 <= i < inner.len() - 1 implies has_edge(
                g,
                #[trigger] inner[i],
                inner[i + 1],
            ) by {
                if i < path.len() - 1 {
                    assert(inner[i] == path[i] && inner[i + 1] == path[i + 1]);
                }
            }
        }
        lemma_distinct_bound(inner, g.len());
        if turns_back(g[v as int], inner) {
            let j = choose|j: int|
                0 <= j < g[v as int].len() && inner.contains(#[trigger] g[v as int][j]);
            lemma_back_edge(g, inner, j);
        } else {
            let children = g[v as int];
            assert forall|j: int| 0 <= j < children.len() implies has_edge(
                g,
                v,
                #[trigger] children[j],
            ) by {}
            assert forall|i: int| 0 <= i < done.len() implies !inner.contains(
                #[trigger] done[i],
            ) by {
                assert(done.contains(done[i]));
            }
            lemma_visit_all(g, children, inner, done);
            let below = visit_all(g, children, inner, done);
            assert forall|i: int| done.len() <= i < below.order.len() implies reached_from(
                g,
                from,
                #[trigger] below.order[i],
            ) by {
                let j = choose|j: int|
                    0 <= j < children.len() && #[trigger] reaches(g, children[j], below.order[i]);
                lemma_edge_then_reaches(g, v, children[j], below.order[i]);
                assert(reaches(g, from[0], below.order[i]));
            }
            assert forall|i: int| 0 <= i < below.order.len() implies !path.contains(
                #[trigger] below.order[i],
            ) by {
                if path.contains(below.order[i]) {
                    let k = path.index_of(below.order[i]);
                    assert(inner[k] == below.order[i]);
                }
            }
            if below.cycle is None {
                assert(inner[path.len() as int] == v);
                assert(!below.order.contains(v));
                let order = below.order.push(v);
                assert(order[below.order.len() as int] == v);
                assert forall|i: int, b: usize|
                    #![trigger has_edge(g, order[i], b)]
                    0 <= i < order.len() && has_edge(g, order[i], b) implies order.take(i).contains(
                    b,
                ) by {
                    if i < below.order.len() {
                        assert(order[i] == below.order[i]);
                        assert(has_edge(g, below.order[i], b));
                        assert(order.take(i) =~= below.order.take(i));
                    } else {
                        assert(order.take(i) =~= below.order);
                        let j = children.index_of(b);
                        assert(children[j] == b);
                    }
                }
                lemma_reaches_self(g, v);
                assert(reaches(g, from[0], v));
                assert(children_first(g, order));
                assert forall|i: int| done.len() <= i < order.len() implies reached_from(
                    g,
                    from,
                    #[trigger] order[i],
                ) by {
                    if i < below.order.len() {
                        assert(order[i] == below.order[i]);
                    }
                }
                assert(order.contains(from[0]));
            }
        }
    }
}

proof fn lemma_visit_all(g: Graph, work: Seq<usize>, path: Seq<usize>, done: Seq<usize>)
    requires
        in_bounds(g),
        forall|i: int| 0 <= i < work.len() ==> (#[trigger] work[i]) < g.len(),
        forall|i: int| 0 <= i < work.len() ==> !path.contains(#[trigger] work[i]),
        path.len() > 0 ==> forall|i: int|
            0 <= i < work.len() ==> has_edge(g, path.last(), #[trigger] work[i]),
        open_path(g, path),
        children_first(g, done),
        forall|i: int| 0 <= i < done.len() ==> !path.contains(#[trigger] done[i]),
    ensures
        visit_facts(g, work, path, done, visit_all(g, work, path, done)),
    decreases g.len() - path.len(), work.len(),
{
    if work.len() > 0 {
        let v = work.last();
        let first = visit(g, v, path, done);
        let last: int = work.len() - 1;
        assert(work[last] == v);
        lemma_visit(g, v, path, done);
        assert forall|i: int| done.len() <= i < first.order.len() implies reached_from(
            g,
            work,
            #[trigger] first.order[i],
        ) by {
            assert(reached_from(g, seq![v], first.order[i]));
            assert(reaches(g, work[last], first.order[i]));
        }
        if first.cycle is None {
            let rest = work.drop_last();
            assert forall|i: int| 0 <= i < rest.len() implies (#[trigger] rest[i]) < g.len()
                && !path.contains(rest[i]) && (path.len() > 0 ==> has_edge(
                g,
                path.last(),
                rest[i],
            )) by {
                assert(rest[i] == work[i]);
            }
            lemma_visit_all(g, rest, path, first.order);
            let out = visit_all(g, rest, path, first.order);
            assert forall|i: int| done.len() <= i < out.order.len() implies reached_from(
                g,
                work,
                #[trigger] out.order[i],
            ) by {
                if i < first.order.len() {
                    assert(out.order[i] == first.order[i]);
                } else {
                    let j = choose|j: int|
                        0 <= j < rest.len() && #[trigger] reaches(g, rest[j], out.order[i]);
                    assert(reaches(g, work[j], out.order[i]));
                }
            }
            assert(first.order.contains(seq![v][0]));
            let k = first.order.index_of(v);
            assert(out.order[k] == v);
            if out.cycle is None {
                assert forall|i: int| 0 <= i < work.len() implies out.order.contains(
                    #[trigger] work[i],
                ) by {
                    if i < last {
                        assert(rest[i] == work[i]);
                    }
                }
            }
        }
    }
}

/// In an order in which children come first, what can be reached from a node
/// of the order stands no later than that node.
proof fn lemma_walk_goes_down(g: Graph, order: Seq<usize>, w: Seq<usize>, k: int)
    requires
        children_first(g, order),
        is_walk(g, w),
        0 <= k < order.len(),
        order[k] == w.first(),
    ensures
        order.take(k + 1).contains(w.last()),
        w.len() > 1 ==> order.take(k).contains(w.last()),
    decreases w.len(),
{
    if w.len() == 1 {
        assert(order.take(k + 1)[k] == w.last());
    } else {
        assert(has_edge(g, w[0], w[0int + 1]));
        assert(has_edge(g, order[k], w[1]));
        let m = order.take(k).index_of(w[1]);
        assert(order[m] == w[1] && m < k);
        let rest = w.skip(1);
        assert forall|i: int| 0 <= i < rest.len() - 1 implies has_edge(
            g,
            #[trigger] rest[i],
            rest[i + 1],
        ) by {
            assert(has_edge(g, w[i + 1], w[i + 1 + 1]));
        }
        lemma_walk_goes_down(g, order, rest, m);
        let z = order.take(m + 1).index_of(w.last());
        assert(order.take(k)[z] == w.last());
        assert(order.take(k + 1)[z] == w.last());
    }
}

/// A search that notices no cycle closes exactly the nodes that can be reached
/// from the sources, each of them once and after all its children. One that
/// notices a cycle names a node that lies on one.
pub proof fn lemma_search(g: Graph, sources: Seq<usize>)
    requires
        in_bounds(g),
        forall|i: int| 0 <= i < sources.len() ==> (#[trigger] sources[i]) < g.len(),
    ensures
        children_first(g, search(g, sources).order),
        search(g, sources).cycle is None ==> forall|v: usize|
            #[trigger] search(g, sources).order.contains(v) <==> reached_from(g, sources, v),
        search(g, sources).cycle matches Some(u) ==> u < g.len() && on_cycle(g, u),
{
    let empty = Seq::<usize>::empty();
    let out = search(g, sources);
    lemma_visit_all(g, sources, empty, empty);
    if out.cycle is None {
        assert forall|v: usize| #[trigger] out.order.contains(v) <==> reached_from(g, sources, v) by {
            if out.order.contains(v) {
                let k = out.order.index_of(v);
                assert(reached_from(g, sources, out.order[k]));
            }
            if reached_from(g, sources, v) {
                let i = choose|i: int| 0 <= i < sources.len() && #[trigger] reaches(g, sources[i], v);
                let w = choose|w: Seq<usize>|
                    #[trigger] is_walk(g, w) && w.first() == sources[i] && w.last() == v;
                let k = out.order.index_of(sources[i]);
                lemma_walk_goes_down(g, out.order, w, k);
                let z = out.order.take(k + 1).index_of(v);
                assert(out.order[z] == v);
            }
        }
    }
}

/// All the nodes of a graph with `n` nodes, in order.
pub open spec fn all_nodes(n: nat) -> Seq<usize> {
    Seq::new(n, |i: int| i as usize)
}

/// A search from every node notices a cycle exactly when there is one; if it
/// notices none, it closes every node.
pub proof fn lemma_search_everything(g: Graph)
    requires
        in_bounds(g),
        g.len() <= usize::MAX,
    ensures
        search(g, all_nodes(g.len())).cycle is None <==> acyclic(g),
        search(g, all_nodes(g.len())).cycle is None ==> search(
            g,
            all_nodes(g.len()),
        ).order.len() == g.len(),
        acyclic(g) ==> forall|v: usize|
            v < g.len() ==> #[trigger] search(g, all_nodes(g.len())).order.contains(v),
{
    let sources = all_nodes(g.len());
    let out = search(g, sources);
    lemma_search(g, sources);
    if out.cycle is None {
        assert forall|v: usize| v < g.len() implies #[trigger] out.order.contains(v) by {
            lemma_reaches_self(g, v);
            assert(reaches(g, sources[v as int], v));
        }
        assert forall|v: usize| v < g.len() implies !on_cycle(g, v) by {
            if on_cycle(g, v) {
                let w = choose|w: Seq<usize>|
                    #[trigger] is_walk(g, w) && w.len() > 1 && w.first() == v && w.last() == v;
                assert(out.order.contains(v));
                let k = out.order.index_of(v);
                lemma_walk_goes_down(g, out.order, w, k);
                let z = out.order.take(k).index_of(v);
                assert(out.order[z] == out.order[k]);
            }
        }
        lemma_distinct_bound(out.order, g.len());
        assert(sources.no_duplicates());
        sources.unique_seq_to_set();
        out.order.unique_seq_to_set();
        assert(sources.to_set().subset_of(out.order.to_set())) by {
            assert forall|v: usize| sources.to_set().contains(v) implies out.order.to_set().contains(
                v,
            ) by {
                let i = sources.index_of(v);
                assert(sources[i] == v);
                assert(out.order.contains(v));
            }
        }
        vstd::set_lib::lemma_len_subset(sources.to_set(), out.order.to_set());
    }
}

/// As many distinct nodes as there are nodes are all the nodes.
pub proof fn lemma_full_order(order: Seq<usize>, n: nat)
    requires
        order.no_duplicates(),
        order.len() == n,
        forall|k: int| 0 <= k < order.len() ==> (#[trigger] order[k]) < n,
    ensures
        forall|v: usize| v < n ==> #[trigger] order.contains(v),
{
    assert forall|v: usize| v < n implies #[trigger] order.contains(v) by {
        if !order.contains(v) {
            let longer = order.push(v);
            assert forall|i: int, j: int|
                0 <= i < longer.len() && 0 <= j < longer.len() && i != j implies longer[i]
                != longer[j] by {
                if i < order.len() {
                    assert(order.contains(order[i]));
                }
                if j < order.len() {
                    assert(order.contains(order[j]));
                }
            }
            lemma_distinct_bound(longer, n);
        }
    }
}

/// Adding a node that has edges to older nodes only closes no cycle.
pub proof fn lemma_new_node_keeps_acyclic(g: Graph, children: Seq<usize>)
    requires
        in_bounds(g),
        acyclic(g),
        g.len() < usize::MAX,
        forall|j: int| 0 <= j < children.len() ==> (#[trigger] children[j]) < g.len(),
    ensures
        in_bounds(g.push(children)),
        acyclic(g.push(children)),
{
    let h = g.push(children);
    let n = g.len() as usize;
    assert forall|a: usize, b: usize| has_edge(h, a, b) implies b < n && (a < n ==> has_edge(
        g,
        a,
        b,
    )) by {
        let j = h[a as int].index_of(b);
        assert(h[a as int][j] == b);
        if a < n {
            assert(g[a as int][j] == b);
        } else {
            assert(children[j] == b);
        }
    }
    assert forall|i: int, j: int|
        #![trigger h[i][j]]
        0 <= i < h.len() && 0 <= j < h[i].len() implies h[i][j] < h.len() by {
        if i < n {
            assert(g[i][j] == h[i][j]);
        } else {
            assert(children[j] == h[i][j]);
        }
    }
    assert forall|v: usize| v < h.len() implies !on_cycle(h, v) by {
        if on_cycle(h, v) {
            let w = choose|w: Seq<usize>|
                #[trigger] is_walk(h, w) && w.len() > 1 && w.first() == v && w.last() == v;
            assert forall|i: int| 0 <= i < w.len() implies (#[trigger] w[i]) < n by {
                let k: int = if i == 0 { w.len() - 1 } else { i };
                assert(w[k] == w[i]);
                assert(has_edge(h, w[k - 1], w[k - 1 + 1]));
            }
            assert forall|i: int| 0 <= i < w.len() - 1 implies has_edge(
                g,
                #[trigger] w[i],
                w[i + 1],
            ) by {
                assert(has_edge(h, w[i], w[i + 1]));
                assert(w[i] < n);
            }
            assert(is_walk(g, w));
            assert(v == w[0]);
            assert(on_cycle(g, v));
        }
    }
}

/// The identifiers of the nodes, in their order.
pub open spec fn ids<G: GraphNode>(nodes: Seq<G>) -> Seq<<G::NodeId as View>::V> {
    Seq::new(nodes.len(), |i: int| nodes[i].node_id())
}

/// Where the nodes with the given identifiers stand. Of nodes that share an
/// identifier the last one counts.
pub open spec fn positions<V>(all: Seq<V>, wanted: Seq<V>) -> Seq<usize> {
    Seq::new(wanted.len(), |j: int| ident::last_position(all, wanted[j]) as usize)
}

/// The graph that the nodes describe.
pub open spec fn adjacency<G: GraphNode>(nodes: Seq<G>) -> Graph {
    Seq::new(nodes.len(), |i: int| positions(ids(nodes), nodes[i].node_children()))
}

/// Every one of `wanted` occurs in `all`.
pub open spec fn all_present<V>(all: Seq<V>, wanted: Seq<V>) -> bool {
    forall|j: int| 0 <= j < wanted.len() ==> all.contains(#[trigger] wanted[j])
}

/// Every child that a node names is there.
pub open spec fn children_present<G: GraphNode>(nodes: Seq<G>) -> bool {
    forall|i: int|
        0 <= i < nodes.len() ==> all_present(ids(nodes), (#[trigger] nodes[i]).node_children())
}

/// Position `k` is the first one whose entry occurred before.
pub open spec fn first_duplicate<V>(s: Seq<V>, k: int) -> bool {
    &&& 0 <= k < s.len()
    &&& s.take(k).no_duplicates()
    &&& s.take(k).contains(s[k])
}

/// `wanted[c]` is the first entry that does not occur in `all`.
pub open spec fn first_missing<V>(all: Seq<V>, wanted: Seq<V>, c: int) -> bool {
    &&& 0 <= c < wanted.len()
    &&& all_present(all, wanted.take(c))
    &&& !all.contains(wanted[c])
}

/// What is wrong with a set of nodes.
#[derive(Debug, PartialEq, Eq)]
pub enum DagError<I> {
    /// Two nodes had the same ID.
    DuplicateId(I),
    /// Node identified by `parent` referred to `child`, but the latter didn't exist.
    NoSuchChild { parent: I, child: I },
    /// A cycle existed containing the node with this ID.
    Cycle(I),
}

impl<I: Ident> DagError<I> {
    /// The message for this error.
    pub open spec fn message(&self) -> Seq<char> {
        match self {
            DagError::DuplicateId(id) => "duplicate key "@ + I::debug_form(id@),
            DagError::NoSuchChild { parent, child } => I::debug_form(parent@)
                + " refers to nonexistent "@ + I::debug_form(child@),
            DagError::Cycle(id) => "cycle in graph, containing "@ + I::debug_form(id@),
        }
    }

    /// The message for this error.
    pub fn to_string(&self) -> (r: String)
        ensures
            r@ == self.message(),
    {
        match self {
            DagError::DuplicateId(id) => {
                let mut out: String = String::from_str("duplicate key ");
                out.append(id.debug().as_str());
                out
            },
            DagError::NoSuchChild { parent, child } => {
                let mut out: String = parent.debug();
                out.append(" refers to nonexistent ");
                out.append(child.debug().as_str());
                out
            },
            DagError::Cycle(id) => {
                let mut out: String = String::from_str("cycle in graph, containing ");
                out.append(id.debug().as_str());
                out
            },
        }
    }
}

/// Whether `nodes` cannot be made into a graph for the reason that `e` gives.
/// At most one reason applies to any given nodes.
pub open spec fn is_reason<G: GraphNode>(nodes: Seq<G>, e: DagError<G::NodeId>) -> bool {
    match e {
        DagError::DuplicateId(id) => exists|k: int| #[trigger]
            first_duplicate(ids(nodes), k) && id@ == ids(nodes)[k],
        DagError::NoSuchChild { parent, child } => {
            &&& ids(nodes).no_duplicates()
            &&& exists|p: int, c: int|
                0 <= p < nodes.len() && children_present_before(nodes, p) && #[trigger]
                first_missing(ids(nodes), nodes[p].node_children(), c) && parent@
                    == nodes[p].node_id() && child@ == nodes[p].node_children()[c]
        },
        DagError::Cycle(id) => {
            &&& ids(nodes).no_duplicates()
            &&& children_present(nodes)
            &&& search(adjacency(nodes), all_nodes(nodes.len())).cycle matches Some(v) && id@
                == nodes[v as int].node_id()
        },
    }
}

/// The children that the nodes before position `p` name are there.
pub open spec fn children_present_before<G: GraphNode>(nodes: Seq<G>, p: int) -> bool {
    forall|i: int|
        0 <= i < p ==> all_present(ids(nodes), (#[trigger] nodes[i]).node_children())
}

/// Whether `node` cannot be added to a graph of `nodes` for the reason that `e`
/// gives. At most one reason applies to any given node.
pub open spec fn is_refused<G: GraphNode>(
    nodes: Seq<G>,
    node: G,
    e: DagError<G::NodeId>,
) -> bool {
    let known = ids(nodes);
    let own = known.push(node.node_id());
    match e {
        DagError::DuplicateId(id) => known.contains(node.node_id()) && id@ == node.node_id(),
        DagError::NoSuchChild { parent, child } => {
            &&& !known.contains(node.node_id())
            &&& parent@ == node.node_id()
            &&& exists|c: int| #[trigger]
                first_missing(own, node.node_children(), c) && child@ == node.node_children()[c]
        },
        DagError::Cycle(id) => {
            &&& !known.contains(node.node_id())
            &&& all_present(own, node.node_children())
            &&& node.node_children().contains(node.node_id())
            &&& id@ == node.node_id()
        },
    }
}

/// The adjacency list of a directed acyclic graph, which need not be connected.
/// A node is known by its index.
#[derive(Debug)]
pub struct Dag<G: GraphNode> {
    nodes: Vec<G>,
    // edges[i] contains the destinations of the edges originating from node i.
    edges: Vec<Vec<usize>>,
}

/// The adjacency list in `edges`.
spec fn edge_lists(edges: Seq<Vec<usize>>) -> Graph {
    Seq::new(edges.len(), |i: int| edges[i]@)
}

/// The index of the last node with the identifier `id`.
fn find_node<G: GraphNode>(nodes: &Vec<G>, id: &G::NodeId) -> (r: Option<usize>)
    ensures
        r is Some <==> ids(nodes@).contains(id@),
        r matches Some(i) ==> i == ident::last_position(ids(nodes@), id@) && i < nodes@.len()
            && nodes@[i as int].node_id() == id@,
{
    let mut i: usize = nodes.len();
    let ghost all = ids(nodes@);
    assert(all.take(i as int) =~= all);
    while i > 0
        invariant
            i <= nodes@.len(),
            all == ids(nodes@),
            ident::last_position(all, id@) == ident::last_position(all.take(i as int), id@),
        decreases i,
    {
        i -= 1;
        assert(all.take(i + 1).drop_last() =~= all.take(i as int));
        assert(all.take(i + 1).last() == all[i as int]);
        if nodes[i].id().same(id) {
            proof {
                ident::lemma_last_position(all, id@);
            }
            return Some(i);
        }
    }
    proof {
        ident::lemma_last_position(all, id@);
    }
    None
}

/// The indices of the nodes with the given identifiers, or the position of the
/// first identifier that no node has.
fn find_children<G: GraphNode>(nodes: &Vec<G>, wanted: &Vec<G::NodeId>) -> (r: Result<
    Vec<usize>,
    usize,
>)
    ensures
        match r {
            Ok(found) => all_present(ids(nodes@), ident::views(wanted@)) && found@ == positions(
                ids(nodes@),
                ident::views(wanted@),
            ),
            Err(c) => first_missing(ids(nodes@), ident::views(wanted@), c as int),
        },
{
    let ghost all = ids(nodes@);
    let ghost goal = ident::views(wanted@);
    let mut found: Vec<usize> = Vec::new();
    let mut c: usize = 0;
    while c < wanted.len()
        invariant
            c <= wanted@.len(),
            all == ids(nodes@),
            goal == ident::views(wanted@),
            all_present(all, goal.take(c as int)),
            found@ =~= positions(all, goal.take(c as int)),
        decreases wanted@.len() - c,
    {
        match find_node(nodes, &wanted[c]) {
            Some(i) => {
                found.push(i);
                assert forall|j: int| 0 <= j < goal.take(c + 1).len() implies all.contains(
                    #[trigger] goal.take(c + 1)[j],
                ) by {
                    if j < c {
                        assert(goal.take(c as int)[j] == goal[j]);
                    }
                }
            },
            None => {
                return Err(c);
            },
        }
        c += 1;
    }
    assert(goal.take(c as int) =~= goal);
    Ok(found)
}

/// Edges to existing nodes stay in bounds.
pub proof fn lemma_adjacency_in_bounds<G: GraphNode>(nodes: Seq<G>)
    requires
        children_present(nodes),
        nodes.len() <= usize::MAX,
    ensures
        in_bounds(adjacency(nodes)),
{
    let g = adjacency(nodes);
    assert forall|i: int, j: int|
        #![trigger g[i][j]]
        0 <= i < g.len() && 0 <= j < g[i].len() implies g[i][j] < g.len() by {
        assert(all_present(ids(nodes), nodes[i].node_children()));
        ident::lemma_last_position(ids(nodes), nodes[i].node_children()[j]);
    }
}

proof fn lemma_visit_prefix(g: Graph, v: usize, path: Seq<usize>, done: Seq<usize>)
    ensures
        done.is_prefix_of(visit(g, v, path, done).order),
    decreases g.len() - path.len(), 0int,
{
    if !done.contains(v) && path.len() < g.len() && !turns_back(g[v as int], path.push(v)) {
        lemma_visit_all_prefix(g, g[v as int], path.push(v), done);
    }
}

proof fn lemma_visit_all_prefix(g: Graph, work: Seq<usize>, path: Seq<usize>, done: Seq<usize>)
    ensures
        done.is_prefix_of(visit_all(g, work, path, done).order),
    decreases g.len() - path.len(), work.len(),
{
    if work.len() > 0 {
        let first = visit(g, work.last(), path, done);
        lemma_visit_prefix(g, work.last(), path, done);
        if first.cycle is None {
            lemma_visit_all_prefix(g, work.drop_last(), path, first.order);
        }
    }
}

/// A search goes on from what it has closed.
proof fn lemma_finish_prefix(g: Graph, stack: Seq<usize>, path: Seq<usize>, done: Seq<usize>)
    ensures
        done.is_prefix_of(finish(g, stack, path, done).order),
    decreases stack.len(),
{
    if stack.len() > 0 {
        let v = stack.last();
        let rest = stack.drop_last();
        if path.len() > 0 && v == path.last() {
            lemma_finish_prefix(g, rest, path.drop_last(), done.push(v));
        } else {
            lemma_visit_prefix(g, v, path, done);
            lemma_finish_prefix(g, rest, path, visit(g, v, path, done).order);
        }
    }
}

/// Entries on top of the stack that are not open are visited one by one.
proof fn lemma_finish_work(
    g: Graph,
    base: Seq<usize>,
    work: Seq<usize>,
    path: Seq<usize>,
    done: Seq<usize>,
)
    requires
        forall|i: int| 0 <= i < work.len() ==> !path.contains(#[trigger] work[i]),
    ensures
        finish(g, base + work, path, done) == ({
            let above = visit_all(g, work, path, done);
            if above.cycle is Some {
                above
            } else {
                finish(g, base, path, above.order)
            }
        }),
    decreases work.len(),
{
    if work.len() == 0 {
        assert(base + work =~= base);
    } else {
        let v = work.last();
        assert(work[work.len() - 1] == v);
        assert((base + work).last() == v);
        assert((base + work).drop_last() =~= base + work.drop_last());
        assert(path.len() > 0 ==> path.contains(path.last()));
        let first = visit(g, v, path, done);
        if first.cycle is None {
            assert forall|i: int| 0 <= i < work.drop_last().len() implies !path.contains(
                #[trigger] work.drop_last()[i],
            ) by {
                assert(work.drop_last()[i] == work[i]);
            }
            lemma_finish_work(g, base, work.drop_last(), path, first.order);
        }
    }
}

proof fn lemma_shape_work(base: Seq<usize>, work: Seq<usize>, path: Seq<usize>)
    requires
        stack_shape(base, path),
        forall|i: int| 0 <= i < work.len() ==> !path.contains(#[trigger] work[i]),
    ensures
        stack_shape(base + work, path),
    decreases work.len(),
{
    if work.len() == 0 {
        assert(base + work =~= base);
    } else {
        let v = work.last();
        assert(work[work.len() - 1] == v);
        assert((base + work).last() == v);
        assert((base + work).drop_last() =~= base + work.drop_last());
        assert(path.len() > 0 ==> path.contains(path.last()));
        assert forall|i: int| 0 <= i < work.drop_last().len() implies !path.contains(
            #[trigger] work.drop_last()[i],
        ) by {
            assert(work.drop_last()[i] == work[i]);
        }
        lemma_shape_work(base, work.drop_last(), path);
    }
}

/// To open a node, leave it on the stack and put its children on top.
proof fn lemma_open(g: Graph, rest: Seq<usize>, v: usize, path: Seq<usize>, done: Seq<usize>)
    requires
        !path.contains(v),
        !done.contains(v),
        path.len() < g.len(),
        !turns_back(g[v as int], path.push(v)),
    ensures
        finish(g, rest.push(v), path, done) == finish(
            g,
            rest.push(v) + g[v as int],
            path.push(v),
            done,
        ),
{
    let inner = path.push(v);
    let below = visit_all(g, g[v as int], inner, done);
    assert(path.len() > 0 ==> path.contains(path.last()));
    assert(rest.push(v).drop_last() =~= rest);
    assert(inner.drop_last() =~= path);
    lemma_finish_work(g, rest.push(v), g[v as int], inner, done);
    assert(rest.push(v).last() == v && inner.last() == v);
}

impl<G: GraphNode> Dag<G> {
    /// The nodes, in the order in which they were given.
    pub closed spec fn node_seq(&self) -> Seq<G> {
        self.nodes@
    }

    /// The edges.
    pub closed spec fn graph(&self) -> Graph {
        edge_lists(self.edges@)
    }

    /// There is a list of edges for every node, and edges lead to nodes.
    pub open spec fn wf(&self) -> bool {
        &&& self.graph().len() == self.node_seq().len() <= usize::MAX
        &&& in_bounds(self.graph())
    }

    /// The nodes have distinct identifiers and name only each other as
    /// children, the edges are those that they name, and there is no cycle.
    pub open spec fn valid(&self) -> bool {
        &&& self.wf()
        &&& ids(self.node_seq()).no_duplicates()
        &&& children_present(self.node_seq())
        &&& self.graph() == adjacency(self.node_seq())
        &&& acyclic(self.graph())
    }

    /// A graph without nodes.
    pub fn empty() -> (r: Self)
        ensures
            r.valid(),
            r.node_seq().len() == 0,
    {
        proof {
            let none = Seq::<G>::empty();
            assert(edge_lists(Seq::empty()) =~= adjacency(none));
        }
        Self { nodes: Vec::new(), edges: Vec::new() }
    }

    /// The graph of the given nodes, unless two of them have the same
    /// identifier, one names a child that is not there, or there is a cycle.
    pub fn new(nodes: Vec<G>) -> (r: Result<Self, DagError<G::NodeId>>)
        ensures
            r is Ok <==> ids(nodes@).no_duplicates() && children_present(nodes@) && acyclic(
                adjacency(nodes@),
            ),
            match r {
                Ok(dag) => dag.valid() && dag.node_seq() == nodes@,
                Err(e) => is_reason(nodes@, e),
            },
    {
        let ghost all = ids(nodes@);
        // Two nodes with one identifier are rejected first.
        let mut idx: usize = 0;
        while idx < nodes.len()
            invariant
                idx <= nodes@.len(),
                all == ids(nodes@),
                all.take(idx as int).no_duplicates(),
            decreases nodes@.len() - idx,
        {
            let id = nodes[idx].id();
            let mut before: usize = 0;
            while before < idx
                invariant
                    before <= idx < nodes@.len(),
                    all == ids(nodes@),
                    all.take(idx as int).no_duplicates(),
                    id@ == all[idx as int],
                    forall|k: int| 0 <= k < before ==> all[k] != all[idx as int],
                decreases idx - before,
            {
                if nodes[before].id().same(&id) {
                    proof {
                        assert(all.take(idx as int)[before as int] == all[idx as int]);
                        assert(first_duplicate(all, idx as int));
                        assert(!all.no_duplicates());
                    }
                    return Err(DagError::DuplicateId(id));
                }
                before += 1;
            }
            idx += 1;
        }
        assert(all.take(idx as int) =~= all);
        // Now build the adjacency list.
        let mut edges: Vec<Vec<usize>> = Vec::new();
        let mut idx: usize = 0;
        while idx < nodes.len()
            invariant
                idx <= nodes@.len(),
                all == ids(nodes@),
                all.no_duplicates(),
                children_present_before(nodes@, idx as int),
                edges@.len() == idx,
                forall|i: int|
                    0 <= i < idx ==> (#[trigger] edges@[i])@ == adjacency(nodes@)[i],
            decreases nodes@.len() - idx,
        {
            let wanted = nodes[idx].child_ids();
            assert(ident::views(wanted@) =~= nodes@[idx as int].node_children());
            match find_children(&nodes, &wanted) {
                Ok(found) => {
                    edges.push(found);
                },
                Err(c) => {
                    proof {
                        assert(first_missing(
                            all,
                            nodes@[idx as int].node_children(),
                            c as int,
                        ));
                        assert(!children_present(nodes@)) by {
                            if children_present(nodes@) {
                                assert(all_present(all, nodes@[idx as int].node_children()));
                            }
                        }
                    }
                    return Err(
                        DagError::NoSuchChild {
                            parent: nodes[idx].id(),
                            child: wanted[c].duplicate(),
                        },
                    );
                },
            }
            idx += 1;
        }
        proof {
            assert(edge_lists(edges@) =~= adjacency(nodes@));
            lemma_adjacency_in_bounds(nodes@);
            lemma_search_everything(adjacency(nodes@));
        }
        let dag = Self { nodes, edges };
        match dag.bottom_up().check_cycles() {
            Ok(_) => Ok(dag),
            Err(e) => Err(e),
        }
    }

    /// The graph with a node added, unless its identifier is taken, it names a
    /// child that is not there, or it names itself as a child.
    pub fn with_node(self, node: G) -> (r: Result<Self, DagError<G::NodeId>>)
        requires
            self.valid(),
            self.node_seq().len() < usize::MAX,
        ensures
            r is Ok <==> !ids(self.node_seq()).contains(node.node_id()) && all_present(
                ids(self.node_seq()),
                node.node_children(),
            ),
            match r {
                Ok(dag) => {
                    &&& dag.valid()
                    &&& dag.node_seq() == self.node_seq().push(node)
                    &&& dag.graph() == self.graph().push(
                        positions(ids(self.node_seq()), node.node_children()),
                    )
                },
                Err(e) => is_refused(self.node_seq(), node, e),
            },
    {
        let wanted = node.child_ids();
        let id = node.id();
        let ghost known = ids(self.node_seq());
        let ghost children = node.node_children();
        assert(ident::views(wanted@) =~= children);
        if find_node(&self.nodes, &id).is_some() {
            return Err(DagError::DuplicateId(id));
        }
        match find_children(&self.nodes, &wanted) {
            Ok(found) => {
                let ghost before = self;
                let mut nodes = self.nodes;
                let mut edges = self.edges;
                nodes.push(node);
                edges.push(found);
                let dag = Self { nodes, edges };
                proof {
                    assert(dag.graph() =~= before.graph().push(found@));
                    lemma_with_node_valid(before, node, dag);
                }
                Ok(dag)
            },
            Err(c) => {
                let ghost own = known.push(node.node_id());
                proof {
                    assert forall|x: <G::NodeId as View>::V| #[trigger]
                        own.contains(x) <==> known.contains(x) || x == node.node_id() by {
                        if known.contains(x) {
                            assert(own[known.index_of(x)] == x);
                        }
                        assert(own[known.len() as int] == node.node_id());
                    }
                }
                let mut k: usize = c;
                while k < wanted.len()
                    invariant
                        c <= k <= wanted@.len(),
                        ident::views(wanted@) == children,
                        children == node.node_children(),
                        known == ids(self.node_seq()),
                        id@ == node.node_id(),
                        own == known.push(node.node_id()),
                        forall|x: <G::NodeId as View>::V| #[trigger]
                            own.contains(x) <==> known.contains(x) || x == node.node_id(),
                        !known.contains(node.node_id()),
                        !all_present(known, children),
                        all_present(own, children.take(k as int)),
                        k > c ==> children.contains(node.node_id()),
                        first_missing(known, children, c as int),
                    decreases wanted@.len() - k,
                {
                    let ghost x = children[k as int];
                    if !wanted[k].same(&id) && find_node(&self.nodes, &wanted[k]).is_none() {
                        assert(!own.contains(x));
                        assert(first_missing(own, children, k as int));
                        return Err(
                            DagError::NoSuchChild { parent: id, child: wanted[k].duplicate() },
                        );
                    }
                    assert forall|j: int| 0 <= j < children.take(k + 1).len() implies own.contains(
                        #[trigger] children.take(k + 1)[j],
                    ) by {
                        if j < k {
                            assert(own.contains(children.take(k as int)[j]));
                        }
                    }
                    k += 1;
                }
                assert(children.take(k as int) =~= children);
                Err(DagError::Cycle(id))
            },
        }
    }

    /// Iterate over nodes, visiting children before their parents.
    pub fn bottom_up(&self) -> (r: TopologicalSort<'_, G>)
        requires
            self.wf(),
        ensures
            r.wf(),
            r.nodes() == self.node_seq(),
            r.done().len() == 0,
            r.outcome() == search(self.graph(), all_nodes(self.node_seq().len())),
    {
        let mut sources: Vec<usize> = Vec::new();
        let mut i: usize = 0;
        while i < self.nodes.len()
            invariant
                i <= self.nodes@.len(),
                sources@ =~= all_nodes(i as nat),
            decreases self.nodes@.len() - i,
        {
            sources.push(i);
            i += 1;
        }
        TopologicalSort::new(self, sources)
    }

    /// The nodes, in the order in which they were given.
    pub fn nodes(&self) -> (r: &Vec<G>)
        ensures
            r@ == self.node_seq(),
    {
        &self.nodes
    }

    /// The node with the identifier `id`, the last one if there are several.
    pub fn node(&self, id: &G::NodeId) -> (r: Option<&G>)
        ensures
            r is Some <==> ids(self.node_seq()).contains(id@),
            r matches Some(node) ==> *node == self.node_seq()[ident::last_position(
                ids(self.node_seq()),
                id@,
            )] && node.node_id() == id@,
    {
        match find_node(&self.nodes, id) {
            Some(i) => Some(&self.nodes[i]),
            None => None,
        }
    }

    /// All the descendants of the node with the identifier `id`, and that node
    /// itself, parents before their children.
    pub fn top_down_from(&self, id: &G::NodeId) -> (r: Option<Vec<&G>>)
        requires
            self.wf(),
            acyclic(self.graph()),
        ensures
            r is Some <==> ids(self.node_seq()).contains(id@),
            r matches Some(found) ==> nodes_at(
                found@,
                self.node_seq(),
                search(
                    self.graph(),
                    seq![ident::last_position(ids(self.node_seq()), id@) as usize],
                ).order.reverse(),
            ),
    {
        let start: usize = match find_node(&self.nodes, id) {
            Some(i) => i,
            None => {
                return None;
            },
        };
        let mut sources: Vec<usize> = Vec::new();
        sources.push(start);
        assert(sources@ =~= seq![start]);
        proof {
            lemma_search(self.graph(), seq![start]);
        }
        let order = TopologicalSort::new(self, sources).into_nodes();
        let mut found: Vec<&G> = Vec::new();
        let mut i: usize = order.len();
        while i > 0
            invariant
                i <= order@.len(),
                found@.len() + i == order@.len(),
                forall|k: int| 0 <= k < found@.len() ==> found@[k] == order@[order@.len() - 1 - k],
            decreases i,
        {
            i -= 1;
            found.push(order[i]);
        }
        Some(found)
    }
}

/// A valid graph stays valid when a node is added that has an identifier of its
/// own and names only older nodes as children.
proof fn lemma_with_node_valid<G: GraphNode>(
    before: Dag<G>,
    node: G,
    after: Dag<G>,
)
    requires
        before.valid(),
        before.node_seq().len() < usize::MAX,
        !ids(before.node_seq()).contains(node.node_id()),
        all_present(ids(before.node_seq()), node.node_children()),
        after.node_seq() == before.node_seq().push(node),
        after.graph() == before.graph().push(
            positions(ids(before.node_seq()), node.node_children()),
        ),
    ensures
        after.valid(),
{
    let nodes = before.node_seq();
    let more = after.node_seq();
    let old_ids = ids(nodes);
    let new_ids = ids(more);
    assert(new_ids =~= old_ids.push(node.node_id()));
    assert(new_ids.drop_last() =~= old_ids);
    // What occurred before still occurs at the same place.
    assert forall|x: <G::NodeId as View>::V| old_ids.contains(x) implies #[trigger]
    new_ids.contains(x) && ident::last_position(new_ids, x) == ident::last_position(
        old_ids,
        x,
    ) by {
        let k = old_ids.index_of(x);
        assert(new_ids[k] == x);
        assert(x != node.node_id());
    }
    assert forall|i: int| 0 <= i < nodes.len() implies positions(
        new_ids,
        (#[trigger] nodes[i]).node_children(),
    ) =~= positions(old_ids, nodes[i].node_children()) by {
        let wanted = nodes[i].node_children();
        assert(all_present(old_ids, wanted));
        assert forall|j: int| 0 <= j < wanted.len() implies ident::last_position(
            new_ids,
            #[trigger] wanted[j],
        ) == ident::last_position(old_ids, wanted[j]) by {
            assert(new_ids.contains(wanted[j]));
        }
    }
    let children = positions(new_ids, node.node_children());
    assert(children =~= positions(old_ids, node.node_children())) by {
        let wanted = node.node_children();
        assert forall|j: int| 0 <= j < wanted.len() implies ident::last_position(
            new_ids,
            #[trigger] wanted[j],
        ) == ident::last_position(old_ids, wanted[j]) by {
            assert(new_ids.contains(wanted[j]));
        }
    }
    assert(adjacency(more) =~= after.graph()) by {
        assert forall|i: int| 0 <= i < more.len() implies adjacency(more)[i]
            == after.graph()[i] by {
            if i < nodes.len() {
                assert(more[i] == nodes[i]);
                assert(before.graph()[i] == positions(old_ids, nodes[i].node_children()));
                assert(positions(new_ids, nodes[i].node_children()) == positions(
                    old_ids,
                    nodes[i].node_children(),
                ));
            }
        }
    }
    assert(children_present(more)) by {
        assert forall|i: int| 0 <= i < more.len() implies all_present(
            new_ids,
            (#[trigger] more[i]).node_children(),
        ) by {
            let wanted = more[i].node_children();
            if i < nodes.len() {
                assert(more[i] == nodes[i]);
            }
            assert(all_present(old_ids, wanted));
            assert forall|j: int| 0 <= j < wanted.len() implies new_ids.contains(
                #[trigger] wanted[j],
            ) by {
                assert(old_ids.contains(wanted[j]));
            }
        }
    }
    assert(new_ids.no_duplicates()) by {
        assert forall|i: int, j: int|
            0 <= i < new_ids.len() && 0 <= j < new_ids.len() && i != j implies new_ids[i]
            != new_ids[j] by {
            if i < nodes.len() {
                assert(old_ids.contains(old_ids[i]));
            }
            if j < nodes.len() {
                assert(old_ids.contains(old_ids[j]));
            }
        }
    }
    lemma_adjacency_in_bounds(more);
    assert forall|j: int| 0 <= j < children.len() implies (#[trigger] children[j])
        < before.graph().len() by {
        let x = node.node_children()[j];
        assert(old_ids.contains(x));
        assert(new_ids.contains(x));
        ident::lemma_last_position(old_ids, x);
    }
    lemma_new_node_keeps_acyclic(before.graph(), children);
}

/// The last node that a search from one node closes is that node: everything
/// else is below it.
pub proof fn lemma_search_ends_at_source(g: Graph, v: usize)
    requires
        in_bounds(g),
        acyclic(g),
        v < g.len(),
    ensures
        search(g, seq![v]).cycle is None,
        search(g, seq![v]).order.len() > 0,
        search(g, seq![v]).order.last() == v,
{
    let empty = Seq::<usize>::empty();
    let sources = seq![v];
    lemma_search(g, sources);
    assert(sources.last() == v);
    assert(sources.drop_last() =~= empty);
    reveal_with_fuel(visit_all, 2);
    assert(!empty.contains(v));
}

/// Some nodes of a valid graph that have all their children among themselves
/// form a valid graph too.
pub proof fn lemma_closed_part<G: GraphNode>(nodes: Seq<G>, part: Seq<G>)
    requires
        nodes.len() <= usize::MAX,
        part.len() <= usize::MAX,
        ids(nodes).no_duplicates(),
        children_present(nodes),
        acyclic(adjacency(nodes)),
        forall|k: int| 0 <= k < part.len() ==> nodes.contains(#[trigger] part[k]),
        children_present(part),
    ensures
        in_bounds(adjacency(part)),
        acyclic(adjacency(part)),
{
    let g = adjacency(part);
    let h = adjacency(nodes);
    lemma_adjacency_in_bounds(nodes);
    lemma_adjacency_in_bounds(part);
    let image = |v: usize|
        ident::last_position(ids(nodes), part[v as int].node_id()) as usize;
    assert forall|a: usize, b: usize| #[trigger] has_edge(g, a, b) implies has_edge(
        h,
        image(a),
        image(b),
    ) by {
        let j = g[a as int].index_of(b);
        let child = part[a as int].node_children()[j];
        assert(g[a as int][j] == b);
        assert(all_present(ids(part), part[a as int].node_children()));
        ident::lemma_last_position(ids(part), child);
        assert(part[b as int].node_id() == child) by {
            assert(ids(part)[b as int] == child);
        }
        let k = nodes.index_of(part[a as int]);
        assert(nodes[k] == part[a as int]);
        assert(ids(nodes)[k] == part[a as int].node_id());
        ident::lemma_last_position_is(ids(nodes), part[a as int].node_id(), k);
        assert(image(a) == k);
        assert(h[k][j] == image(b));
    }
    lemma_acyclic_below(g, h, image);
}

/// If edges of one graph lie over edges of another, a cycle lies over a cycle.
pub proof fn lemma_acyclic_below(g: Graph, h: Graph, image: spec_fn(usize) -> usize)
    requires
        in_bounds(g),
        in_bounds(h),
        acyclic(h),
        forall|a: usize, b: usize| #[trigger]
            has_edge(g, a, b) ==> has_edge(h, image(a), image(b)),
    ensures
        acyclic(g),
{
    assert forall|v: usize| v < g.len() implies !on_cycle(g, v) by {
        if on_cycle(g, v) {
            let w = choose|w: Seq<usize>|
                #[trigger] is_walk(g, w) && w.len() > 1 && w.first() == v && w.last() == v;
            let x = Seq::new(w.len(), |i: int| image(w[i]));
            assert forall|i: int| 0 <= i < x.len() - 1 implies has_edge(
                h,
                #[trigger] x[i],
                x[i + 1],
            ) by {
                assert(has_edge(g, w[i], w[i + 1]));
            }
            assert(is_walk(h, x) && x.len() > 1 && x.first() == image(v) && x.last() == image(v));
            assert(has_edge(h, x[0], x[0int + 1]));
            assert(on_cycle(h, image(v)));
        }
    }
}

/// `found` are the nodes at the positions `order`.
pub open spec fn nodes_at<G>(found: Seq<&G>, nodes: Seq<G>, order: Seq<usize>) -> bool {
    &&& found.len() == order.len()
    &&& forall|i: int| 0 <= i < found.len() ==> *(#[trigger] found[i]) == nodes[order[i] as int]
}

/// `e` names the node at which a search noticed a cycle.
pub open spec fn cycle_reported<G: GraphNode>(
    nodes: Seq<G>,
    cycle: Option<usize>,
    e: DagError<G::NodeId>,
) -> bool {
    match (cycle, e) {
        (Some(v), DagError::Cycle(id)) => v < nodes.len() && id@ == nodes[v as int].node_id(),
        _ => false,
    }
}

// Possible states of a node during the search.
#[derive(Clone, Copy, PartialEq, Eq, Structural)]
enum NodeState {
    New,  // Initial state of every node.
    Opened,  // Node visited (pushed to the stack) but not yet closed.
    Closed,  // Node popped from the stack, all descendants visited.
}

/// Iterates over the nodes reachable from a set of given sources in
/// topological order, that is, every node comes _after_ all its children.
pub struct TopologicalSort<'a, G: GraphNode> {
    dag: &'a Dag<G>,
    dfs_stack: Vec<usize>,
    node_state: Vec<NodeState>,
    path: Ghost<Seq<usize>>,
    done: Ghost<Seq<usize>>,
}

impl<'a, G: GraphNode> TopologicalSort<'a, G> {
    /// The nodes of the graph that is searched.
    pub closed spec fn nodes(&self) -> Seq<G> {
        self.dag.node_seq()
    }

    /// The nodes handed out so far.
    pub closed spec fn done(&self) -> Seq<usize> {
        self.done@
    }

    /// What the search comes to once it has ended.
    pub closed spec fn outcome(&self) -> Outcome {
        finish(self.dag.graph(), self.dfs_stack@, self.path@, self.done@)
    }

    /// The states of the nodes fit the stack.
    pub closed spec fn wf(&self) -> bool {
        &&& self.dag.wf()
        &&& self.dfs_stack@.len() > 0 ==> {
            &&& self.node_state@.len() == self.nodes().len()
            &&& forall|i: int|
                0 <= i < self.dfs_stack@.len() ==> (#[trigger] self.dfs_stack@[i])
                    < self.nodes().len()
            &&& forall|v: usize|
                v < self.nodes().len() ==> ((#[trigger] self.node_state@[v as int])
                    == NodeState::Opened <==> self.path@.contains(v))
            &&& forall|v: usize|
                v < self.nodes().len() ==> ((#[trigger] self.node_state@[v as int])
                    == NodeState::Closed <==> self.done@.contains(v))
            &&& self.path@.no_duplicates()
            &&& self.done@.no_duplicates()
            &&& forall|i: int| 0 <= i < self.path@.len() ==> (#[trigger] self.path@[i])
                < self.nodes().len()
            &&& forall|i: int| 0 <= i < self.done@.len() ==> (#[trigger] self.done@[i])
                < self.nodes().len()
            &&& stack_shape(self.dfs_stack@, self.path@)
        }
    }

    /// The constructed instance will iterate over all nodes that are reachable
    /// from at least one of the given `sources`.
    fn new(dag: &'a Dag<G>, sources: Vec<usize>) -> (r: Self)
        requires
            dag.wf(),
            forall|i: int| 0 <= i < sources@.len() ==> (#[trigger] sources@[i])
                < dag.node_seq().len(),
        ensures
            r.wf(),
            r.nodes() == dag.node_seq(),
            r.done().len() == 0,
            r.outcome() == search(dag.graph(), sources@),
    {
        let mut node_state: Vec<NodeState> = Vec::new();
        let mut i: usize = 0;
        while i < dag.nodes.len()
            invariant
                i <= dag.nodes@.len(),
                node_state@.len() == i,
                forall|k: int| 0 <= k < i ==> node_state@[k] == NodeState::New,
            decreases dag.nodes@.len() - i,
        {
            node_state.push(NodeState::New);
            i += 1;
        }
        proof {
            let empty = Seq::<usize>::empty();
            assert(empty + sources@ =~= sources@);
            lemma_finish_work(dag.graph(), empty, sources@, empty, empty);
            lemma_shape_work(empty, sources@, empty);
        }
        TopologicalSort {
            dag,
            dfs_stack: sources,
            node_state,
            path: Ghost(Seq::empty()),
            done: Ghost(Seq::empty()),
        }
    }

    /// Whether a child of node `v` is open.
    fn has_open_child(&self, v: usize) -> (r: bool)
        requires
            self.dag.wf(),
            v < self.nodes().len(),
            self.node_state@.len() == self.nodes().len(),
            forall|u: usize|
                u < self.nodes().len() ==> ((#[trigger] self.node_state@[u as int])
                    == NodeState::Opened <==> self.path@.contains(u)),
        ensures
            r == turns_back(self.dag.graph()[v as int], self.path@),
    {
        let children = &self.dag.edges[v];
        let ghost edges = self.dag.graph()[v as int];
        assert(children@ == edges);
        let mut j: usize = 0;
        while j < children.len()
            invariant
                j <= children@.len(),
                children@ == edges,
                edges == self.dag.graph()[v as int],
                self.dag.wf(),
                v < self.nodes().len(),
                self.node_state@.len() == self.nodes().len(),
                forall|u: usize|
                    u < self.nodes().len() ==> ((#[trigger] self.node_state@[u as int])
                        == NodeState::Opened <==> self.path@.contains(u)),
                forall|k: int| 0 <= k < j ==> !self.path@.contains(#[trigger] edges[k]),
            decreases children@.len() - j,
        {
            let u: usize = children[j];
            assert(self.dag.graph()[v as int][j as int] == u);
            if self.node_state[u] == NodeState::Opened {
                assert(self.path@.contains(edges[j as int]));
                return true;
            }
            j += 1;
        }
        false
    }

    /// Advances the iterator while checking for cycles: a node is handed out as
    /// soon as it is closed. If there is a cycle, it is found eventually;
    /// subsequent calls return `Ok(None)`.
    pub fn try_next(&mut self) -> (r: Result<Option<&'a G>, DagError<G::NodeId>>)
        requires
            old(self).wf(),
        ensures
            final(self).wf(),
            final(self).nodes() == old(self).nodes(),
            old(self).done().is_prefix_of(old(self).outcome().order),
            match r {
                Ok(Some(node)) => {
                    &&& old(self).done().len() < old(self).outcome().order.len()
                    &&& final(self).done() == old(self).done().push(
                        old(self).outcome().order[old(self).done().len() as int],
                    )
                    &&& final(self).outcome() == old(self).outcome()
                    &&& final(self).done().last() < old(self).nodes().len()
                    &&& *node == old(self).nodes()[final(self).done().last() as int]
                },
                Ok(None) => {
                    &&& final(self).done() == old(self).done()
                    &&& final(self).outcome() == old(self).outcome()
                    &&& old(self).outcome() == (Outcome { order: old(self).done(), cycle: None })
                },
                Err(e) => {
                    &&& final(self).done() == old(self).done()
                    &&& final(self).outcome() == (Outcome { order: old(self).done(), cycle: None })
                    &&& old(self).outcome().order == old(self).done()
                    &&& cycle_reported(old(self).nodes(), old(self).outcome().cycle, e)
                },
            },
    {
        let ghost g = self.dag.graph();
        let ghost n = self.nodes().len();
        proof {
            lemma_finish_prefix(g, self.dfs_stack@, self.path@, self.done@);
        }
        loop
            invariant
                self.wf(),
                self.dag == old(self).dag,
                g == self.dag.graph(),
                n == self.nodes().len(),
                self.done@ == old(self).done@,
                self.outcome() == old(self).outcome(),
                old(self).done().is_prefix_of(old(self).outcome().order),
            decreases
                    if self.dfs_stack@.len() == 0 {
                        0
                    } else {
                        n - self.path@.len()
                    },
                    self.dfs_stack@.len(),
        {
            let ghost stack = self.dfs_stack@;
            let ghost path = self.path@;
            let ghost done = self.done@;
            let v: usize = match self.dfs_stack.pop() {
                Some(v) => v,
                None => {
                    return Ok(None);
                },
            };
            let ghost rest = stack.drop_last();
            assert(v == stack.last() && self.dfs_stack@ == rest);
            assert(stack[stack.len() - 1] == v);
            assert(path.len() > 0 ==> path.contains(path.last()));
            proof {
                lemma_distinct_bound(path, n);
            }
            match self.node_state[v] {
                NodeState::New => {
                    let ghost inner = path.push(v);
                    let ghost children = g[v as int];
                    self.node_state.set(v, NodeState::Opened);
                    self.path = Ghost(inner);
                    // Don't actually pop yet.
                    self.dfs_stack.push(v);
                    proof {
                        assert(inner[path.len() as int] == v);
                        assert forall|u: usize| inner.contains(u) <==> path.contains(u) || u
                            == v by {
                            if path.contains(u) {
                                assert(inner[path.index_of(u)] == u);
                            }
                        }
                        lemma_distinct_bound(inner, n);
                        assert(self.dfs_stack@.drop_last() =~= rest);
                        assert(inner.drop_last() =~= path);
                    }
                    // A child of v that is open, v itself included, means a cycle.
                    if self.has_open_child(v) {
                        self.dfs_stack.clear();
                        return Err(DagError::Cycle(self.dag.nodes[v].id()));
                    }
                    assert(self.dag.edges@[v as int]@ == children);
                    self.dfs_stack.extend_from_slice(self.dag.edges[v].as_slice());
                    proof {
                        assert(stack =~= rest.push(v));
                        assert(self.dfs_stack@ =~= rest.push(v) + children);
                        lemma_open(g, rest, v, path, done);
                        lemma_shape_work(rest.push(v), children, inner);
                        assert forall|i: int| 0 <= i < self.dfs_stack@.len() implies (
                        #[trigger] self.dfs_stack@[i]) < n by {
                            if i < stack.len() {
                                assert(self.dfs_stack@[i] == stack[i]);
                            } else {
                                assert(self.dfs_stack@[i] == g[v as int][i - stack.len()]);
                            }
                        }
                    }
                },
                NodeState::Opened => {
                    self.node_state.set(v, NodeState::Closed);
                    self.path = Ghost(path.drop_last());
                    self.done = Ghost(done.push(v));
                    proof {
                        assert(v == path.last());
                        let shorter = path.drop_last();
                        let longer = done.push(v);
                        assert(longer[done.len() as int] == v);
                        assert forall|u: usize| longer.contains(u) <==> done.contains(u) || u
                            == v by {
                            if done.contains(u) {
                                assert(longer[done.index_of(u)] == u);
                            }
                        }
                        assert forall|u: usize| shorter.contains(u) <==> path.contains(u) && u
                            != v by {
                            if path.contains(u) && u != v {
                                assert(shorter[path.index_of(u)] == u);
                            }
                        }
                        lemma_finish_prefix(g, rest, shorter, longer);
                        assert(self.outcome().order[done.len() as int] == longer[done.len() as int]);
                    }
                    return Ok(Some(&self.dag.nodes[v]));
                },
                NodeState::Closed => {},
            }
        }
    }

    /// The next node, in a graph in which the search notices no cycle.
    pub fn next(&mut self) -> (r: Option<&'a G>)
        requires
            old(self).wf(),
            old(self).outcome().cycle is None,
        ensures
            final(self).wf(),
            final(self).nodes() == old(self).nodes(),
            final(self).outcome() == old(self).outcome(),
            old(self).done().is_prefix_of(old(self).outcome().order),
            match r {
                Some(node) => {
                    &&& old(self).done().len() < old(self).outcome().order.len()
                    &&& final(self).done() == old(self).done().push(
                        old(self).outcome().order[old(self).done().len() as int],
                    )
                    &&& *node == old(self).nodes()[final(self).done().last() as int]
                },
                None => old(self).outcome().order == old(self).done() && final(self).done()
                    == old(self).done(),
            },
    {
        match self.try_next() {
            Ok(node) => node,
            Err(_) => None,
        }
    }

    /// All the nodes that are left, in order.
    pub fn into_nodes(self) -> (r: Vec<&'a G>)
        requires
            self.wf(),
            self.outcome().cycle is None,
        ensures
            self.done().is_prefix_of(self.outcome().order),
            nodes_at(r@, self.nodes(), self.outcome().order.skip(self.done().len() as int)),
    {
        let ghost order = self.outcome().order;
        let ghost start: int = self.done().len() as int;
        let mut rest = self;
        let mut found: Vec<&'a G> = Vec::new();
        proof {
            lemma_finish_prefix(rest.dag.graph(), rest.dfs_stack@, rest.path@, rest.done@);
        }
        loop
            invariant
                rest.wf(),
                rest.nodes() == self.nodes(),
                rest.outcome() == self.outcome(),
                order == self.outcome().order,
                self.outcome().cycle is None,
                start == self.done().len(),
                self.done().is_prefix_of(order),
                rest.done().is_prefix_of(order),
                rest.done().len() == start + found@.len(),
                nodes_at(found@, self.nodes(), order.subrange(start, start + found@.len())),
            decreases order.len() - rest.done().len(),
        {
            let ghost before = rest.done();
            match rest.next() {
                Some(node) => {
                    found.push(node);
                    assert(rest.done() =~= order.take(before.len() as int + 1));
                },
                None => {
                    assert(order.subrange(start, start + found@.len()) =~= order.skip(start));
                    return found;
                },
            }
        }
    }

    /// Whether the search notices a cycle.
    pub fn check_cycles(self) -> (r: Result<(), DagError<G::NodeId>>)
        requires
            self.wf(),
        ensures
            match r {
                Ok(_) => self.outcome().cycle is None,
                Err(e) => cycle_reported(self.nodes(), self.outcome().cycle, e),
            },
    {
        let mut rest = self;
        loop
            invariant
                rest.wf(),
                rest.nodes() == self.nodes(),
                rest.outcome() == self.outcome(),
            decreases self.outcome().order.len() - rest.done().len(),
        {
            match rest.try_next() {
                Ok(Some(_)) => {},
                Ok(None) => {
                    return Ok(());
                },
                Err(e) => {
                    return Err(e);
                },
            }
        }
    }
}

/// There is an edge between two nodes exactly if the first names the second as
/// one of its children.
pub proof fn lemma_edges_as_named<G: GraphNode>(nodes: Seq<G>, a: usize, b: usize)
    requires
        ids(nodes).no_duplicates(),
        children_present(nodes),
        nodes.len() <= usize::MAX,
        a < nodes.len(),
        b < nodes.len(),
    ensures
        has_edge(adjacency(nodes), a, b) <==> nodes[a as int].node_children().contains(
            nodes[b as int].node_id(),
        ),
{
    let all = ids(nodes);
    let wanted = nodes[a as int].node_children();
    let g = adjacency(nodes);
    assert(all_present(all, wanted));
    assert(all[b as int] == nodes[b as int].node_id());
    if has_edge(g, a, b) {
        let j = g[a as int].index_of(b);
        assert(g[a as int][j] == b);
        assert(all.contains(wanted[j]));
        ident::lemma_last_position(all, wanted[j]);
        assert(wanted[j] == nodes[b as int].node_id());
    }
    if wanted.contains(nodes[b as int].node_id()) {
        let j = wanted.index_of(nodes[b as int].node_id());
        assert forall|i: int| b < i < all.len() implies all[i] != all[b as int] by {}
        ident::lemma_last_position_is(all, wanted[j], b as int);
        assert(g[a as int][j] == b);
    }
}

/// What is given as the reason why some nodes form no graph is true of them.
pub proof fn lemma_reason_is_true<G: GraphNode>(nodes: Seq<G>, e: DagError<G::NodeId>)
    requires
        is_reason(nodes, e),
        nodes.len() <= usize::MAX,
    ensures
        match e {
            DagError::DuplicateId(id) => exists|i: int, j: int|
                0 <= i < j < nodes.len() && (#[trigger] nodes[i]).node_id() == id@ && (
                #[trigger] nodes[j]).node_id() == id@,
            DagError::NoSuchChild { parent, child } => {
                &&& exists|p: int|
                    0 <= p < nodes.len() && (#[trigger] nodes[p]).node_id() == parent@
                        && nodes[p].node_children().contains(child@)
                &&& forall|i: int| 0 <= i < nodes.len() ==> (#[trigger] nodes[i]).node_id() != child@
            },
            DagError::Cycle(id) => exists|v: usize|
                v < nodes.len() && nodes[v as int].node_id() == id@ && #[trigger] on_cycle(
                    adjacency(nodes),
                    v,
                ),
        },
{
    let all = ids(nodes);
    match e {
        DagError::DuplicateId(id) => {
            let k = choose|k: int| #[trigger] first_duplicate(all, k) && id@ == all[k];
            let i = all.take(k).index_of(all[k]);
            assert(all.take(k)[i] == all[k]);
            assert(nodes[i].node_id() == id@ && nodes[k].node_id() == id@);
        },
        DagError::NoSuchChild { parent, child } => {
            let (p, c) = choose|p: int, c: int|
                0 <= p < nodes.len() && children_present_before(nodes, p) && #[trigger]
                first_missing(all, nodes[p].node_children(), c) && parent@ == nodes[p].node_id()
                    && child@ == nodes[p].node_children()[c];
            assert(nodes[p].node_children().contains(child@));
            assert forall|i: int| 0 <= i < nodes.len() implies (#[trigger] nodes[i]).node_id()
                != child@ by {
                assert(all[i] == nodes[i].node_id());
            }
        },
        DagError::Cycle(id) => {
            lemma_adjacency_in_bounds(nodes);
            let g = adjacency(nodes);
            let sources = all_nodes(nodes.len());
            lemma_search(g, sources);
            let v = search(g, sources).cycle->0;
            assert(on_cycle(g, v));
        },
    }
}

/// For nodes that form a graph there is no reason why they should not.
pub proof fn lemma_no_reason<G: GraphNode>(nodes: Seq<G>, e: DagError<G::NodeId>)
    requires
        nodes.len() <= usize::MAX,
        ids(nodes).no_duplicates(),
        children_present(nodes),
        acyclic(adjacency(nodes)),
    ensures
        !is_reason(nodes, e),
{
    if is_reason(nodes, e) {
        lemma_reason_is_true(nodes, e);
        let all = ids(nodes);
        match e {
            DagError::DuplicateId(id) => {
                let (i, j) = choose|i: int, j: int|
                    0 <= i < j < nodes.len() && (#[trigger] nodes[i]).node_id() == id@ && (
                    #[trigger] nodes[j]).node_id() == id@;
                assert(all[i] == all[j]);
            },
            DagError::NoSuchChild { parent, child } => {
                let p = choose|p: int|
                    0 <= p < nodes.len() && (#[trigger] nodes[p]).node_id() == parent@
                        && nodes[p].node_children().contains(child@);
                let wanted = nodes[p].node_children();
                assert(all_present(all, wanted));
                let c = wanted.index_of(child@);
                assert(all.contains(wanted[c]));
                let i = all.index_of(child@);
                assert(nodes[i].node_id() == child@);
            },
            DagError::Cycle(id) => {
                let v = choose|v: usize|
                    v < nodes.len() && nodes[v as int].node_id() == id@ && #[trigger] on_cycle(
                        adjacency(nodes),
                        v,
                    );
            },
        }
    }
}

/// What is given as the reason why a node cannot be added is true of it.
pub proof fn lemma_refusal_is_true<G: GraphNode>(
    nodes: Seq<G>,
    node: G,
    e: DagError<G::NodeId>,
)
    requires
        is_refused(nodes, node, e),
    ensures
        match e {
            DagError::DuplicateId(id) => id@ == node.node_id() && ids(nodes).contains(id@),
            DagError::NoSuchChild { parent, child } => parent@ == node.node_id()
                && node.node_children().contains(child@) && child@ != node.node_id() && !ids(
                nodes,
            ).contains(child@),
            DagError::Cycle(id) => id@ == node.node_id() && node.node_children().contains(id@),
        },
{
    if let DagError::NoSuchChild { parent, child } = e {
        let own = ids(nodes).push(node.node_id());
        let c = choose|c: int| #[trigger]
            first_missing(own, node.node_children(), c) && child@ == node.node_children()[c];
        assert(node.node_children().contains(child@));
        assert(own[ids(nodes).len() as int] == node.node_id());
        if ids(nodes).contains(child@) {
            assert(own[ids(nodes).index_of(child@)] == child@);
        }
    }
}

/// A node that has a new identifier and names only older nodes is never refused.
pub proof fn lemma_never_refused<G: GraphNode>(nodes: Seq<G>, node: G, e: DagError<G::NodeId>)
    requires
        !ids(nodes).contains(node.node_id()),
        all_present(ids(nodes), node.node_children()),
    ensures
        !is_refused(nodes, node, e),
{
    if is_refused(nodes, node, e) {
        lemma_refusal_is_true(nodes, node, e);
        let wanted = node.node_children();
        match e {
            DagError::DuplicateId(id) => {},
            DagError::NoSuchChild { parent, child } => {
                assert(ids(nodes).contains(wanted[wanted.index_of(child@)]));
            },
            DagError::Cycle(id) => {
                assert(ids(nodes).contains(wanted[wanted.index_of(id@)]));
            },
        }
    }
}

/// Nodes without children are closed from the last to the first.
pub proof fn lemma_leaves_in_reverse(g: Graph, sources: Seq<usize>)
    requires
        sources.no_duplicates(),
        forall|i: int|
            0 <= i < sources.len() ==> (#[trigger] sources[i]) < g.len() && g[sources[i] as int].len()
                == 0,
    ensures
        search(g, sources).cycle is None,
        search(g, sources).order == sources.reverse(),
{
    lemma_leaves_closed(g, sources, Seq::empty());
    assert(Seq::<usize>::empty() + sources.reverse() =~= sources.reverse());
}

/// Nodes without children are closed one after the other.
proof fn lemma_leaves_closed(g: Graph, work: Seq<usize>, done: Seq<usize>)
    requires
        work.no_duplicates(),
        forall|i: int|
            0 <= i < work.len() ==> (#[trigger] work[i]) < g.len() && g[work[i] as int].len() == 0
                && !done.contains(work[i]),
    ensures
        visit_all(g, work, Seq::empty(), done) == (Outcome {
            order: done + work.reverse(),
            cycle: None,
        }),
    decreases work.len(),
{
    let none = Seq::<usize>::empty();
    if work.len() == 0 {
        assert(done + work.reverse() =~= done);
    } else {
        let v = work[work.len() - 1];
        let rest = work.drop_last();
        assert(work.last() == v);
        assert(!turns_back(g[v as int], none.push(v)));
        reveal_with_fuel(visit_all, 2);
        let closed = done.push(v);
        assert(visit_all(g, g[v as int], none.push(v), done) == (Outcome {
            order: done,
            cycle: None,
        }));
        assert(visit(g, v, none, done) == (Outcome { order: closed, cycle: None }));
        assert forall|i: int| 0 <= i < rest.len() implies (#[trigger] rest[i]) < g.len()
            && g[rest[i] as int].len() == 0 && !closed.contains(rest[i]) by {
            assert(rest[i] == work[i]);
            if closed.contains(rest[i]) {
                let k = closed.index_of(rest[i]);
                if k < done.len() {
                    assert(done[k] == rest[i]);
                }
            }
        }
        lemma_leaves_closed(g, rest, closed);
        assert(closed + rest.reverse() =~= done + work.reverse());
    }
}

/// A message names the nodes that it is about.
pub proof fn lemma_message_names_nodes<I: Ident>(e: DagError<I>)
    ensures
        match e {
            DagError::DuplicateId(id) => crate::job::ends_with(e.message(), I::debug_form(id@)),
            DagError::NoSuchChild { parent, child } => I::debug_form(parent@).is_prefix_of(
                e.message(),
            ) && crate::job::ends_with(e.message(), I::debug_form(child@)),
            DagError::Cycle(id) => crate::job::ends_with(e.message(), I::debug_form(id@)),
        },
{
    let s = e.message();
    match e {
        DagError::DuplicateId(id) => {
            let end = I::debug_form(id@);
            assert(s.skip(s.len() - end.len()) =~= end);
        },
        DagError::NoSuchChild { parent, child } => {
            let front = I::debug_form(parent@);
            let end = I::debug_form(child@);
            assert(s.take(front.len() as int) =~= front);
            assert(s.skip(s.len() - end.len()) =~= end);
        },
        DagError::Cycle(id) => {
            let end = I::debug_form(id@);
            assert(s.skip(s.len() - end.len()) =~= end);
        },
    }
}

} // verus!
