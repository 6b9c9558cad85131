use petgraph::graph::NodeIndex;
use petgraph::visit::EdgeRef;
use vstd::prelude::*;

verus! {

/// The graph store: a directed petgraph graph whose vertices carry a `usize`
/// label and whose edges carry an unused boolean flag.
pub type Digraph = petgraph::graph::Graph<usize, bool, petgraph::Directed, u32>;

#[verifier::external_type_specification]
#[verifier::external_body]
#[verifier::reject_recursive_types(N)]
#[verifier::reject_recursive_types(E)]
#[verifier::reject_recursive_types(Ty)]
#[verifier::reject_recursive_types(Ix)]
pub struct ExGraph<N, E, Ty, Ix>(petgraph::graph::Graph<N, E, Ty, Ix>);

#[verifier::external_type_specification]
#[verifier::external_body]
pub struct ExDirected(petgraph::Directed);

/// The labels of a graph's vertices, in index order.
pub uninterp spec fn graph_labels(g: Digraph) -> Seq<usize>;

/// The graph's edges as (source, target) pairs, in the order of its edge
/// list (the order of insertion while no edge is removed).
pub uninterp spec fn graph_arcs(g: Digraph) -> Seq<(usize, usize)>;

/// Every edge runs between vertices that exist.
pub open spec fn arcs_within(es: Seq<(usize, usize)>, n: nat) -> bool {
    forall|k: int| 0 <= k < es.len() ==> (#[trigger] es[k]).0 < n && es[k].1 < n
}

/// Targets of the edges leaving `v`, from the last edge of the list back.
pub open spec fn out_list(es: Seq<(usize, usize)>, v: usize) -> Seq<usize>
    decreases es.len(),
{
    if es.len() == 0 {
        Seq::empty()
    } else {
        let rest = out_list(es.drop_last(), v);
        if es.last().0 == v {
            seq![es.last().1].add(rest)
        } else {
            rest
        }
    }
}

/// The `i`-th step of `p` is an edge of `es`.
pub open spec fn walk_step(es: Seq<(usize, usize)>, p: Seq<usize>, i: int) -> bool {
    es.contains((p[i], p[i + 1]))
}

/// `l` holds the targets of the edges leaving `v`, each as often as such an
/// edge occurs, in some order.
pub open spec fn lists_out(es: Seq<(usize, usize)>, v: usize, l: Seq<usize>) -> bool {
    l.to_multiset() == out_list(es, v).to_multiset()
}

/// `p` is a walk along edges of `es`.
pub open spec fn is_walk(es: Seq<(usize, usize)>, p: Seq<usize>) -> bool {
    &&& p.len() > 0
    &&& forall|i: int| 0 <= i < p.len() - 1 ==> #[trigger] walk_step(es, p, i)
}

/// `v` can be reached from `u` by a directed walk (of length zero or more).
pub open spec fn reaches(es: Seq<(usize, usize)>, u: usize, v: usize) -> bool {
    exists|p: Seq<usize>| #[trigger] is_walk(es, p) && p[0] == u && p.last() == v
}

/// `u` and `v` lie on a common cycle, or are equal.
pub open spec fn mutually_reachable(es: Seq<(usize, usize)>, u: usize, v: usize) -> bool {
    reaches(es, u, v) && reaches(es, v, u)
}

/// Each edge turned around, order kept.
pub open spec fn flipped(es: Seq<(usize, usize)>) -> Seq<(usize, usize)> {
    es.map_values(|e: (usize, usize)| (e.1, e.0))
}

/// The most vertices, and the most edges, that the store's 32-bit indices
/// allow.
pub open spec fn max_index() -> nat {
    0xffff_ffffnat
}

/// Relies on petgraph's `Graph::new`: a graph with no vertices and no edges.
#[verifier::external_body]
fn empty_graph() -> (r: Digraph)
    ensures
        graph_labels(r) == Seq::<usize>::empty(),
        graph_arcs(r) == Seq::<(usize, usize)>::empty(),
{
    petgraph::graph::Graph::new()
}

/// Relies on petgraph's `Graph::node_count`, and on the store's invariant:
/// `add_node` refuses a vertex past the index type's end, and `add_edge`
/// refuses an endpoint that is not a vertex.
#[verifier::external_body]
fn node_total(g: &Digraph) -> (r: usize)
    ensures
        r == graph_labels(*g).len(),
        r <= max_index(),
        arcs_within(graph_arcs(*g), r as nat),
{
    g.node_count()
}

/// Relies on petgraph's `Graph::edge_count`; `add_edge` refuses an edge past
/// the index type's end.
#[verifier::external_body]
fn edge_total(g: &Digraph) -> (r: usize)
    ensures
        r == graph_arcs(*g).len(),
        r <= max_index(),
{
    g.edge_count()
}

/// Relies on petgraph's `Graph::add_node`: the label is appended and its index
/// is the former vertex count.
#[verifier::external_body]
fn push_vertex(g: &mut Digraph, label: usize) -> (r: usize)
    requires
        graph_labels(*old(g)).len() < max_index(),
    ensures
        r == graph_labels(*old(g)).len(),
        graph_labels(*final(g)) == graph_labels(*old(g)).push(label),
        graph_arcs(*final(g)) == graph_arcs(*old(g)),
{
    g.add_node(label).index()
}

/// Relies on petgraph's `Graph::add_edge`: the edge is appended to the edge
/// list, parallel edges and self-loops included.
#[verifier::external_body]
fn push_arc(g: &mut Digraph, a: usize, b: usize, flag: bool)
    requires
        a < graph_labels(*old(g)).len(),
        b < graph_labels(*old(g)).len(),
        graph_arcs(*old(g)).len() < max_index(),
    ensures
        graph_labels(*final(g)) == graph_labels(*old(g)),
        graph_arcs(*final(g)) == graph_arcs(*old(g)).push((a, b)),
{
    g.add_edge(NodeIndex::new(a), NodeIndex::new(b), flag);
}

/// Relies on petgraph's `Graph::raw_edges`: the `i`-th edge's endpoints.
#[verifier::external_body]
pub(crate) fn arc_at(g: &Digraph, i: usize) -> (r: (usize, usize))
    requires
        i < graph_arcs(*g).len(),
    ensures
        r == graph_arcs(*g)[i as int],
{
    let e = &g.raw_edges()[i];
    (e.source().index(), e.target().index())
}

/// Relies on petgraph's `Graph::index` on a vertex: its label.
#[verifier::external_body]
fn label_at(g: &Digraph, v: usize) -> (r: usize)
    requires
        v < graph_labels(*g).len(),
    ensures
        r == graph_labels(*g)[v as int],
{
    g[NodeIndex::new(v)]
}

/// Relies on petgraph's `Graph::edges` on a directed graph: one item for
/// each edge whose source is `v`, read off `v`'s list of outgoing edges.
#[verifier::external_body]
pub(crate) fn out_targets(g: &Digraph, v: usize) -> (r: Vec<usize>)
    requires
        v < graph_labels(*g).len(),
    ensures
        lists_out(graph_arcs(*g), v, r@),
{
    g.edges(NodeIndex::new(v)).map(|e| e.target().index()).collect()
}

/// A fresh graph with no vertices and no edges.
pub fn new_graph() -> (r: Digraph)
    ensures
        graph_labels(r) == Seq::<usize>::empty(),
        graph_arcs(r) == Seq::<(usize, usize)>::empty(),
{
    empty_graph()
}

/// Adds a vertex carrying `label`; its id is the former vertex count.
pub fn add_vertex(g: &mut Digraph, label: usize) -> (r: usize)
    requires
        graph_labels(*old(g)).len() < max_index(),
    ensures
        r == graph_labels(*old(g)).len(),
        graph_labels(*final(g)) == graph_labels(*old(g)).push(label),
        graph_arcs(*final(g)) == graph_arcs(*old(g)),
{
    push_vertex(g, label)
}

/// Adds the directed edge `a -> b`; parallel edges and self-loops are kept.
pub fn add_edge(g: &mut Digraph, a: usize, b: usize)
    requires
        a < graph_labels(*old(g)).len(),
        b < graph_labels(*old(g)).len(),
        graph_arcs(*old(g)).len() < max_index(),
    ensures
        graph_labels(*final(g)) == graph_labels(*old(g)),
        graph_arcs(*final(g)) == graph_arcs(*old(g)).push((a, b)),
{
    push_arc(g, a, b, false);
}

/// Number of vertices.
pub fn vertex_count(g: &Digraph) -> (r: usize)
    ensures
        r == graph_labels(*g).len(),
        r <= max_index(),
        arcs_within(graph_arcs(*g), r as nat),
{
    node_total(g)
}

/// Number of edges.
pub fn edge_count(g: &Digraph) -> (r: usize)
    ensures
        r == graph_arcs(*g).len(),
        r <= max_index(),
{
    edge_total(g)
}

/// The label of vertex `v`.
pub fn vertex_label(g: &Digraph, v: usize) -> (r: usize)
    requires
        v < graph_labels(*g).len(),
    ensures
        r == graph_labels(*g)[v as int],
{
    label_at(g, v)
}

/// The outgoing edges of `v` as (v, target) pairs, one per edge.
pub fn out_edges(g: &Digraph, v: usize) -> (r: Vec<(usize, usize)>)
    requires
        v < graph_labels(*g).len(),
    ensures
        exists|l: Seq<usize>| #[trigger] lists_out(graph_arcs(*g), v, l) && r@ == l.map_values(|t: usize| (v, t)),
{
    let ts = out_targets(g, v);
    let mut r: Vec<(usize, usize)> = Vec::new();
    let mut i: usize = 0;
    while i < ts.len()
        invariant
            i <= ts.len(),
            r@ == ts@.take(i as int).map_values(|t: usize| (v, t)),
        decreases ts.len() - i,
    {
        r.push((v, ts[i]));
        i += 1;
        assert(r@ =~= ts@.take(i as int).map_values(|t: usize| (v, t)));
    }
    assert(ts@.take(i as int) =~= ts@);
    assert(lists_out(graph_arcs(*g), v, ts@));
    r
}

/// Builds a graph with vertices `0..n`, each labelled by its own index, and
/// the given edges in order.
pub fn from_edges(n: usize, edges: &Vec<(usize, usize)>) -> (r: Digraph)
    requires
        n <= max_index(),
        edges@.len() <= max_index(),
        arcs_within(edges@, n as nat),
    ensures
        graph_labels(r) == Seq::new(n as nat, |i: int| i as usize),
        graph_arcs(r) == edges@,
{
    let mut g = empty_graph();
    let mut v: usize = 0;
    while v < n
        invariant
            v <= n <= max_index(),
            graph_labels(g) == Seq::new(v as nat, |i: int| i as usize),
            graph_arcs(g) == Seq::<(usize, usize)>::empty(),
        decreases n - v,
    {
        push_vertex(&mut g, v);
        assert(graph_labels(g) =~= Seq::new((v + 1) as nat, |i: int| i as usize));
        v += 1;
    }
    let mut k: usize = 0;
    while k < edges.len()
        invariant
            k <= edges@.len() <= max_index(),
            n <= max_index(),
            arcs_within(edges@, n as nat),
            graph_labels(g) == Seq::new(n as nat, |i: int| i as usize),
            graph_arcs(g) == edges@.take(k as int),
        decreases edges.len() - k,
    {
        let (a, b) = edges[k];
        assert(edges@[k as int] == (a, b));
        push_arc(&mut g, a, b, false);
        assert(edges@.take(k as int + 1) =~= edges@.take(k as int).push((a, b)));
        k += 1;
    }
    assert(edges@.take(k as int) =~= edges@);
    g
}

/// The number of vertices that 1-based edge pairs name: the largest endpoint.
pub open spec fn one_based_span(pairs: Seq<(u32, u32)>) -> nat
    decreases pairs.len(),
{
    if pairs.len() == 0 {
        0
    } else {
        let rest = one_based_span(pairs.drop_last());
        let (a, b) = pairs.last();
        let m = if a >= b { a as nat } else { b as nat };
        if m >= rest { m } else { rest }
    }
}

/// Every endpoint of the 1-based pairs is at least one.
pub open spec fn one_based_ok(pairs: Seq<(u32, u32)>) -> bool {
    forall|k: int| 0 <= k < pairs.len() ==> (#[trigger] pairs[k]).0 >= 1 && pairs[k].1 >= 1
}

/// The 1-based pairs renumbered from zero.
pub open spec fn zero_based(pairs: Seq<(u32, u32)>) -> Seq<(usize, usize)> {
    pairs.map_values(|p: (u32, u32)| ((p.0 - 1) as usize, (p.1 - 1) as usize))
}

proof fn lemma_span_bounds(pairs: Seq<(u32, u32)>)
    ensures
        one_based_span(pairs) <= u32::MAX,
        forall|k: int| 0 <= k < pairs.len() ==> (#[trigger] pairs[k]).0 <= one_based_span(pairs) && pairs[k].1
            <= one_based_span(pairs),
    decreases pairs.len(),
{
    if pairs.len() > 0 {
        let pre = pairs.drop_last();
        lemma_span_bounds(pre);
        assert forall|k: int| 0 <= k < pairs.len() implies (#[trigger] pairs[k]).0 <= one_based_span(pairs)
            && pairs[k].1 <= one_based_span(pairs) by {
            if k < pre.len() {
                assert(pairs[k] == pre[k]);
            }
        }
    }
}

/// Builds the graph that a list of 1-based edges describes: vertices
/// `0..m`, where `m` is the largest endpoint, each labelled by its index, and
/// each pair `(a, b)` as the edge `(a - 1, b - 1)`, in order. `None` when an
/// endpoint is zero or there are more edges than the store can index.
pub fn graph_from_one_based(pairs: &Vec<(u32, u32)>) -> (r: Option<Digraph>)
    ensures
        r.is_some() <==> one_based_ok(pairs@) && pairs@.len() <= max_index(),
        r matches Some(g) ==> graph_labels(g) == Seq::new(one_based_span(pairs@), |i: int| i as usize)
            && graph_arcs(g) == zero_based(pairs@),
{
    if pairs.len() > 0xffff_ffff {
        return None;
    }
    let mut edges: Vec<(usize, usize)> = Vec::new();
    let mut m: u32 = 0;
    let mut k: usize = 0;
    while k < pairs.len()
        invariant
            k <= pairs.len() <= max_index(),
            edges@ == zero_based(pairs@.take(k as int)),
            m as nat == one_based_span(pairs@.take(k as int)),
            one_based_ok(pairs@.take(k as int)),
        decreases pairs.len() - k,
    {
        let (a, b) = pairs[k];
        assert(pairs@.take(k as int + 1).drop_last() =~= pairs@.take(k as int));
        if a == 0 || b == 0 {
            assert(pairs@[k as int] == (a, b));
            return None;
        }
        edges.push(((a - 1) as usize, (b - 1) as usize));
        let top = if a >= b { a } else { b };
        if top >= m {
            m = top;
        }
        assert(edges@ =~= zero_based(pairs@.take(k as int + 1)));
        assert forall|j: int| 0 <= j < k + 1 implies (#[trigger] pairs@.take(k as int + 1)[j]).0 >= 1
            && pairs@.take(k as int + 1)[j].1 >= 1 by {
            if j < k {
                assert(pairs@.take(k as int + 1)[j] == pairs@.take(k as int)[j]);
            }
        }
        k += 1;
    }
    assert(pairs@.take(k as int) =~= pairs@);
    proof {
        lemma_span_bounds(pairs@);
        assert forall|j: int| 0 <= j < edges@.len() implies (#[trigger] edges@[j]).0 < m && edges@[j].1 < m by {
            assert(pairs@[j].0 <= m && pairs@[j].1 <= m);
        }
    }
    Some(from_edges(m as usize, &edges))
}

/// A new graph with the same labels and every edge `(u, v)` replaced by
/// `(v, u)`, in the same order; the input is left as it is.
pub fn graph_reverse(g: &Digraph) -> (r: Digraph)
    ensures
        graph_labels(r) == graph_labels(*g),
        graph_arcs(r) == flipped(graph_arcs(*g)),
{
    let n = node_total(g);
    let m = edge_total(g);
    let mut r = empty_graph();
    let mut v: usize = 0;
    while v < n
        invariant
            v <= n <= max_index(),
            n == graph_labels(*g).len(),
            graph_labels(r) == graph_labels(*g).take(v as int),
            graph_arcs(r) == Seq::<(usize, usize)>::empty(),
        decreases n - v,
    {
        let l = label_at(g, v);
        push_vertex(&mut r, l);
        assert(graph_labels(*g).take(v as int + 1) =~= graph_labels(*g).take(v as int).push(l));
        v += 1;
    }
    assert(graph_labels(*g).take(n as int) =~= graph_labels(*g));
    let mut i: usize = 0;
    while i < m
        invariant
            i <= m <= max_index(),
            n == graph_labels(*g).len(),
            m == graph_arcs(*g).len(),
            arcs_within(graph_arcs(*g), n as nat),
            graph_labels(r) == graph_labels(*g),
            graph_arcs(r) == flipped(graph_arcs(*g).take(i as int)),
        decreases m - i,
    {
        let (a, b) = arc_at(g, i);
        assert(graph_arcs(*g)[i as int] == (a, b));
        push_arc(&mut r, b, a, false);
        assert(flipped(graph_arcs(*g).take(i as int + 1)) =~= flipped(
            graph_arcs(*g).take(i as int),
        ).push((b, a)));
        i += 1;
    }
    assert(graph_arcs(*g).take(m as int) =~= graph_arcs(*g));
    r
}

/// The out-lists of every vertex, indexed by vertex.
pub fn adjacency(g: &Digraph) -> (adj: Vec<Vec<usize>>)
    ensures
        adj.len() == graph_labels(*g).len(),
        forall|v: int| 0 <= v < adj.len() ==> lists_out(graph_arcs(*g), v as usize, (#[trigger] adj[v])@),
        forall|v: int, j: int| 0 <= v < adj.len() && 0 <= j < adj[v].len() ==> #[trigger] adj[v][j] < adj.len(),
{
    let n = node_total(g);
    let mut adj: Vec<Vec<usize>> = Vec::new();
    let mut v: usize = 0;
    while v < n
        invariant
            v <= n,
            n == graph_labels(*g).len(),
            arcs_within(graph_arcs(*g), n as nat),
            adj.len() == v,
            forall|u: int| 0 <= u < v ==> lists_out(graph_arcs(*g), u as usize, (#[trigger] adj[u])@),
            forall|u: int, j: int| 0 <= u < v && 0 <= j < adj[u].len() ==> #[trigger] adj[u][j] < n,
        decreases n - v,
    {
        let ts = out_targets(g, v);
        proof {
            lemma_out_list_within(graph_arcs(*g), n as nat, v, ts@);
        }
        adj.push(ts);
        v += 1;
    }
    adj
}

/// Every vertex is reachable from itself.
pub proof fn lemma_reaches_self(es: Seq<(usize, usize)>, u: usize)
    ensures
        reaches(es, u, u),
{
    let p = seq![u];
    assert(is_walk(es, p));
}

/// A walk to `x` extends by an edge leaving `x`.
pub proof fn lemma_reaches_step(es: Seq<(usize, usize)>, u: usize, x: usize, t: usize)
    requires
        reaches(es, u, x),
        es.contains((x, t)),
    ensures
        reaches(es, u, t),
{
    let p = choose|p: Seq<usize>| #[trigger] is_walk(es, p) && p[0] == u && p.last() == x;
    let q = p.push(t);
    assert forall|i: int| 0 <= i < q.len() - 1 implies #[trigger] walk_step(es, q, i) by {
        if i < p.len() - 1 {
            assert(walk_step(es, p, i));
            assert(q[i] == p[i] && q[i + 1] == p[i + 1]);
        } else {
            assert(q[i] == x && q[i + 1] == t);
        }
    }
    assert(is_walk(es, q) && q[0] == u && q.last() == t);
}

/// Reachability is transitive.
pub proof fn lemma_reaches_trans(es: Seq<(usize, usize)>, a: usize, b: usize, c: usize)
    requires
        reaches(es, a, b),
        reaches(es, b, c),
    ensures
        reaches(es, a, c),
{
    let q = choose|q: Seq<usize>| #[trigger] is_walk(es, q) && q[0] == b && q.last() == c;
    lemma_reaches_along(es, a, q);
}

proof fn lemma_reaches_along(es: Seq<(usize, usize)>, a: usize, q: Seq<usize>)
    requires
        is_walk(es, q),
        reaches(es, a, q[0]),
    ensures
        reaches(es, a, q.last()),
    decreases q.len(),
{
    if q.len() > 1 {
        let pre = q.drop_last();
        assert forall|i: int| 0 <= i < pre.len() - 1 implies #[trigger] walk_step(es, pre, i) by {
            assert(walk_step(es, q, i));
        }
        lemma_reaches_along(es, a, pre);
        assert(walk_step(es, q, q.len() - 2));
        lemma_reaches_step(es, a, pre.last(), q.last());
    }
}

/// An edge followed by a walk is a walk.
pub proof fn lemma_reaches_prepend(es: Seq<(usize, usize)>, x: usize, y: usize, z: usize)
    requires
        es.contains((x, y)),
        reaches(es, y, z),
    ensures
        reaches(es, x, z),
{
    lemma_reaches_self(es, x);
    lemma_reaches_step(es, x, x, y);
    lemma_reaches_trans(es, x, y, z);
}

/// A walk in the reversed edge list is a walk back in the unreversed one.
pub proof fn lemma_reaches_flipped(es: Seq<(usize, usize)>, a: usize, b: usize)
    requires
        reaches(flipped(es), a, b),
    ensures
        reaches(es, b, a),
{
    let p = choose|p: Seq<usize>| #[trigger] is_walk(flipped(es), p) && p[0] == a && p.last() == b;
    lemma_flipped_walk(es, p);
}

proof fn lemma_flipped_walk(es: Seq<(usize, usize)>, p: Seq<usize>)
    requires
        is_walk(flipped(es), p),
    ensures
        reaches(es, p.last(), p[0]),
    decreases p.len(),
{
    if p.len() == 1 {
        lemma_reaches_self(es, p[0]);
    } else {
        let pre = p.drop_last();
        assert forall|i: int| 0 <= i < pre.len() - 1 implies #[trigger] walk_step(flipped(es), pre, i) by {
            assert(walk_step(flipped(es), p, i));
        }
        lemma_flipped_walk(es, pre);
        assert(walk_step(flipped(es), p, p.len() - 2));
        let x = pre.last();
        let y = p.last();
        assert(flipped(es).contains((x, y)));
        let k = choose|k: int| 0 <= k < flipped(es).len() && flipped(es)[k] == (x, y);
        assert(es[k] == (y, x));
        assert(es.contains((y, x)));
        lemma_reaches_prepend(es, y, x, p[0]);
    }
}

/// A walk in an edge list is a walk back in the reversed one.
pub proof fn lemma_reaches_unflipped(es: Seq<(usize, usize)>, a: usize, b: usize)
    requires
        reaches(es, a, b),
    ensures
        reaches(flipped(es), b, a),
{
    lemma_reverse_twice(es);
    assert(flipped(flipped(es)) == es);
    lemma_reaches_flipped(flipped(es), a, b);
}

/// A walk that starts inside a vertex set and ends outside it crosses an
/// edge from inside to outside.
pub proof fn lemma_walk_exit(es: Seq<(usize, usize)>, p: Seq<usize>, inside: spec_fn(usize) -> bool) -> (r: (usize, usize))
    requires
        is_walk(es, p),
        inside(p[0]),
        !inside(p.last()),
    ensures
        inside(r.0),
        !inside(r.1),
        es.contains(r),
        reaches(es, p[0], r.0),
        reaches(es, r.1, p.last()),
    decreases p.len(),
{
    let q = p.drop_first();
    assert(p.len() > 1);
    assert(walk_step(es, p, 0));
    assert forall|i: int| 0 <= i < q.len() - 1 implies #[trigger] walk_step(es, q, i) by {
        assert(walk_step(es, p, i + 1));
    }
    if !inside(p[1]) {
        lemma_reaches_self(es, p[0]);
        assert(is_walk(es, q) && q[0] == p[1] && q.last() == p.last());
        (p[0], p[1])
    } else {
        let r = lemma_walk_exit(es, q, inside);
        lemma_reaches_prepend(es, p[0], p[1], r.0);
        r
    }
}

/// Reversing twice gives back the same edges, in the same order (so in
/// particular the same multiset of edges).
pub proof fn lemma_reverse_twice(es: Seq<(usize, usize)>)
    ensures
        flipped(flipped(es)) == es,
        flipped(flipped(es)).to_multiset() == es.to_multiset(),
{
    assert(flipped(flipped(es)) =~= es);
}

/// Membership in the out-list of `v` is exactly being the target of an edge
/// from `v`.
pub proof fn lemma_out_list(es: Seq<(usize, usize)>, v: usize, t: usize)
    ensures
        out_list(es, v).contains(t) <==> es.contains((v, t)),
    decreases es.len(),
{
    if es.len() > 0 {
        let pre = es.drop_last();
        lemma_out_list(pre, v, t);
        assert(es =~= pre.push(es.last()));
        if pre.contains((v, t)) {
            let k = choose|k: int| 0 <= k < pre.len() && pre[k] == (v, t);
            assert(es[k] == (v, t));
        }
        if es.contains((v, t)) {
            let k = choose|k: int| 0 <= k < es.len() && es[k] == (v, t);
            if k < pre.len() {
                assert(pre[k] == (v, t));
            }
        }
        let rest = out_list(pre, v);
        if es.last() == (v, t) {
            assert(es[es.len() - 1] == (v, t));
            assert(out_list(es, v)[0] == t);
        } else if es.last().0 == v {
            let l = seq![es.last().1].add(rest);
            assert(out_list(es, v) == l);
            if rest.contains(t) {
                let j = choose|j: int| 0 <= j < rest.len() && rest[j] == t;
                assert(l[j + 1] == t);
            }
            if l.contains(t) {
                let j = choose|j: int| 0 <= j < l.len() && l[j] == t;
                if j > 0 {
                    assert(rest[j - 1] == t);
                }
            }
        } else {
            assert(out_list(es, v) == rest);
        }
    }
}

/// A list of the targets leaving `v` holds exactly the targets of edges
/// from `v`.
pub proof fn lemma_lists_out(es: Seq<(usize, usize)>, v: usize, l: Seq<usize>, t: usize)
    requires
        lists_out(es, v, l),
    ensures
        l.contains(t) <==> es.contains((v, t)),
{
    lemma_out_list(es, v, t);
    vstd::seq_lib::to_multiset_contains(l, t);
    vstd::seq_lib::to_multiset_contains(out_list(es, v), t);
}

/// Every target in such a list is a vertex when all edges are.
pub proof fn lemma_out_list_within(es: Seq<(usize, usize)>, n: nat, v: usize, l: Seq<usize>)
    requires
        arcs_within(es, n),
        lists_out(es, v, l),
    ensures
        forall|j: int| 0 <= j < l.len() ==> #[trigger] l[j] < n,
{
    assert forall|j: int| 0 <= j < l.len() implies #[trigger] l[j] < n by {
        let t = l[j];
        assert(l.contains(t));
        lemma_lists_out(es, v, l, t);
        let k = choose|k: int| 0 <= k < es.len() && es[k] == (v, t);
        assert(es[k].1 < n);
    }
}

} // verus!
