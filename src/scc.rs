use crate::graph::{
    flipped, lemma_reaches_flipped, lemma_reaches_self, lemma_reaches_step, lemma_reaches_trans,
    lemma_reaches_unflipped, walk_step,
    adjacency, arcs_within, graph_arcs, graph_labels, graph_reverse, is_walk, lemma_lists_out,
    lists_out, mutually_reachable, reaches, vertex_count, Digraph,
};
use crate::order::{finish_order_ok, is_vertex_permutation, lemma_reaches_before, topo_sort};
use crate::sizes::{ids_in_range, component_sizes, lemma_count_of_bound, size_table, tallies, top_five_of, top_sizes, widen};
use vstd::prelude::*;

verus! {

/// Number of entries that are still zero (unassigned).
pub open spec fn unassigned(s: Seq<usize>) -> nat
    decreases s.len(),
{
    if s.len() == 0 {
        0
    } else {
        unassigned(s.drop_last()) + if s.last() == 0 { 1nat } else { 0nat }
    }
}

/// Labelling an unlabelled entry leaves one fewer.
proof fn lemma_unassigned_update(s: Seq<usize>, i: int, x: usize)
    requires
        0 <= i < s.len(),
        s[i] == 0,
        x != 0,
    ensures
        unassigned(s.update(i, x)) + 1 == unassigned(s),
    decreases s.len(),
{
    let t = s.update(i, x);
    if i == s.len() - 1 {
        assert(t.drop_last() =~= s.drop_last());
    } else {
        assert(t.drop_last() =~= s.drop_last().update(i, x));
        lemma_unassigned_update(s.drop_last(), i, x);
    }
}

/// Along every edge, an assigned source has an assigned target whose id is
/// not larger.
pub open spec fn closed_under_arcs(es: Seq<(usize, usize)>, ids: Seq<usize>) -> bool {
    forall|k: int|
        0 <= k < es.len() && ids[(#[trigger] es[k]).0 as int] != 0 ==> ids[es[k].1 as int] != 0
            && ids[es[k].1 as int] <= ids[es[k].0 as int]
}

/// Along a walk from an assigned vertex in a table closed under edges, every
/// later vertex is assigned with an id no larger than the first one's.
pub proof fn lemma_closed_walk(es: Seq<(usize, usize)>, ids: Seq<usize>, p: Seq<usize>)
    requires
        closed_under_arcs(es, ids),
        arcs_within(es, ids.len()),
        is_walk(es, p),
        p[0] < ids.len(),
        ids[p[0] as int] != 0,
    ensures
        p.last() < ids.len(),
        ids[p.last() as int] != 0,
        ids[p.last() as int] <= ids[p[0] as int],
    decreases p.len(),
{
    if p.len() > 1 {
        let q = p.drop_last();
        assert forall|i: int| 0 <= i < q.len() - 1 implies #[trigger] walk_step(es, q, i) by {
            assert(walk_step(es, p, i));
            assert(q[i] == p[i] && q[i + 1] == p[i + 1]);
        }
        lemma_closed_walk(es, ids, q);
        let a = p[p.len() - 2];
        assert(walk_step(es, p, p.len() - 2));
        assert(es.contains((a, p.last())));
        let k = choose|k: int| 0 <= k < es.len() && es[k] == (a, p.last());
        assert(es[k].0 == a);
    }
}

/// The out-lists of a graph with `n` vertices and edges `es`.
#[verifier::opaque]
pub open spec fn adjacency_of(adj: Seq<Vec<usize>>, es: Seq<(usize, usize)>, n: nat) -> bool {
    &&& adj.len() == n
    &&& forall|x: int| 0 <= x < n ==> lists_out(es, x as usize, (#[trigger] adj[x])@)
    &&& forall|x: int, j: int| 0 <= x < n && 0 <= j < adj[x]@.len() ==> #[trigger] adj[x]@[j] < n
}

/// Every successor of `x` is assigned, with an id no larger than `x`'s.
pub open spec fn succ_ok(adj: Seq<Vec<usize>>, ids: Seq<usize>, x: int) -> bool {
    forall|j: int|
        0 <= j < adj[x]@.len() ==> ids[#[trigger] adj[x]@[j] as int] != 0 && ids[adj[x]@[j] as int]
            <= ids[x]
}

/// Component `c + 1` was started at `roots[c]`, and every vertex labelled
/// `c + 1` is reachable from it.
#[verifier::opaque]
pub open spec fn rooted(es: Seq<(usize, usize)>, ids: Seq<usize>, roots: Seq<usize>) -> bool {
    &&& forall|c: int|
        #![trigger ids[roots[c] as int]]
        0 <= c < roots.len() ==> roots[c] < ids.len() && ids[roots[c] as int] == c + 1
    &&& forall|x: int|
        0 <= x < ids.len() && #[trigger] ids[x] != 0 ==> ids[x] <= roots.len() && reaches(
            es,
            roots[ids[x] - 1],
            x as usize,
        )
}

/// Unfolds `adjacency_of` at one vertex.
proof fn lemma_adjacency_at(adj: Seq<Vec<usize>>, es: Seq<(usize, usize)>, n: nat, x: int)
    requires
        adjacency_of(adj, es, n),
        0 <= x < n,
    ensures
        adj.len() == n,
        lists_out(es, x as usize, adj[x]@),
        forall|j: int| 0 <= j < adj[x]@.len() ==> 0 <= #[trigger] adj[x]@[j] < n,
{
    reveal(adjacency_of);
}

/// Starting a new component at an unlabelled vertex keeps `rooted`.
proof fn lemma_rooted_start(es: Seq<(usize, usize)>, ids: Seq<usize>, rs: Seq<usize>, v: usize, c: usize)
    requires
        rooted(es, ids, rs),
        v < ids.len(),
        ids[v as int] == 0,
        c == rs.len() + 1,
    ensures
        rooted(es, ids.update(v as int, c), rs.push(v)),
{
    reveal(rooted);
    lemma_reaches_self(es, v);
    let u = ids.update(v as int, c);
    let r2 = rs.push(v);
    assert forall|c: int| 0 <= c < r2.len() implies #[trigger] r2[c] < u.len() && u[r2[c] as int] == c + 1 by {
        if c < rs.len() {
            assert(r2[c] == rs[c]);
            assert(ids[rs[c] as int] == c + 1);
        }
    }
    assert forall|x: int| 0 <= x < u.len() && #[trigger] u[x] != 0 implies u[x] <= r2.len() && reaches(
        es,
        r2[u[x] - 1],
        x as usize,
    ) by {
        if x != v {
            assert(ids[x] != 0);
        }
    }
}

/// Labelling a vertex reachable from the component's root keeps `rooted`.
proof fn lemma_rooted_assign(es: Seq<(usize, usize)>, ids: Seq<usize>, rs: Seq<usize>, t: usize, c: usize)
    requires
        rooted(es, ids, rs),
        t < ids.len(),
        ids[t as int] == 0,
        1 <= c <= rs.len(),
        reaches(es, rs[c - 1], t),
    ensures
        rooted(es, ids.update(t as int, c), rs),
{
    reveal(rooted);
    let u = ids.update(t as int, c);
    assert forall|d: int| 0 <= d < rs.len() implies #[trigger] rs[d] < u.len() && u[rs[d] as int] == d + 1 by {
        assert(ids[rs[d] as int] == d + 1);
    }
    assert forall|x: int| 0 <= x < u.len() && #[trigger] u[x] != 0 implies u[x] <= rs.len() && reaches(
        es,
        rs[u[x] - 1],
        x as usize,
    ) by {
        if x != t {
            assert(ids[x] != 0);
        }
    }
}

/// A labelled vertex is reachable from its component's root.
proof fn lemma_rooted_reach(es: Seq<(usize, usize)>, ids: Seq<usize>, rs: Seq<usize>, x: int)
    requires
        rooted(es, ids, rs),
        0 <= x < ids.len(),
        ids[x] != 0,
    ensures
        ids[x] <= rs.len(),
        reaches(es, rs[ids[x] - 1], x as usize),
{
    reveal(rooted);
}

/// Each root carries the id of its component.
proof fn lemma_rooted_root(es: Seq<(usize, usize)>, ids: Seq<usize>, rs: Seq<usize>, c: int)
    requires
        rooted(es, ids, rs),
        0 <= c < rs.len(),
    ensures
        rs[c] < ids.len(),
        ids[rs[c] as int] == c + 1,
{
    reveal(rooted);
    let r = rs[c];
    assert(ids[r as int] == c + 1);
}

/// Labelling an unlabelled vertex keeps `succ_ok` of any other vertex.
proof fn lemma_succ_ok_grow(adj: Seq<Vec<usize>>, ids: Seq<usize>, t: int, c: usize, x: int)
    requires
        c > 0,
        0 <= x < adj.len(),
        0 <= x < ids.len(),
        0 <= t < ids.len(),
        ids[t] == 0,
        x != t,
        succ_ok(adj, ids, x),
        forall|j: int| 0 <= j < adj[x]@.len() ==> 0 <= #[trigger] adj[x]@[j] < ids.len(),
    ensures
        succ_ok(adj, ids.update(t, c), x),
{
    let u = ids.update(t, c);
    assert forall|j: int| 0 <= j < adj[x]@.len() implies u[#[trigger] adj[x]@[j] as int] != 0 && u[adj[x]@[j] as int]
        <= u[x] by {
        let y = adj[x]@[j] as int;
        assert(ids[y] != 0);
    }
}

/// Labels with `count` the unlabelled vertex `v` and every unlabelled vertex
/// reachable from it along out-lists.
fn label_component(
    adj: &Vec<Vec<usize>>,
    ids: &mut Vec<usize>,
    v: usize,
    count: usize,
    Ghost(es): Ghost<Seq<(usize, usize)>>,
    Ghost(roots): Ghost<Seq<usize>>,
)
    requires
        adjacency_of(adj@, es, old(ids).len() as nat),
        v < old(ids).len(),
        old(ids)[v as int] == 0,
        count == roots.len() + 1,
        forall|x: int| 0 <= x < old(ids).len() ==> #[trigger] old(ids)[x] < count,
        rooted(es, old(ids)@, roots),
        forall|x: int| 0 <= x < old(ids).len() && old(ids)[x] != 0 ==> #[trigger] succ_ok(adj@, old(ids)@, x),
    ensures
        final(ids).len() == old(ids).len(),
        final(ids)[v as int] == count,
        forall|x: int| 0 <= x < old(ids).len() && old(ids)[x] != 0 ==> #[trigger] final(ids)[x] == old(ids)[x],
        forall|x: int| 0 <= x < old(ids).len() ==> #[trigger] final(ids)[x] <= count,
        rooted(es, final(ids)@, roots.push(v)),
        forall|x: int| 0 <= x < old(ids).len() && final(ids)[x] != 0 ==> #[trigger] succ_ok(adj@, final(ids)@, x),
{
    let ghost n: nat = ids.len() as nat;
    let ghost ids_in = ids@;
    let ghost rs = roots.push(v);
    proof {
        lemma_rooted_start(es, ids_in, roots, v, count);
        assert forall|x: int| 0 <= x < n && ids_in[x] != 0 implies #[trigger] succ_ok(adj@, ids_in.update(v as int, count), x) by {
            lemma_adjacency_at(adj@, es, n, x);
            lemma_succ_ok_grow(adj@, ids_in, v as int, count, x);
        }
    }
    ids.set(v, count);
    let mut stack: Vec<usize> = Vec::new();
    stack.push(v);
    assert(stack@[0] == v);
    while stack.len() > 0
        invariant
            adjacency_of(adj@, es, n as nat),
            n == ids.len(),
            v < n,
            ids[v as int] == count,
            count >= 1,
            forall|x: int| 0 <= x < n && ids_in[x] != 0 ==> #[trigger] ids[x] == ids_in[x],
            forall|x: int| 0 <= x < n ==> #[trigger] ids[x] <= count,
            forall|i: int| 0 <= i < stack.len() ==> #[trigger] stack[i] < n && ids[stack[i] as int] == count,
            forall|x: int|
                0 <= x < n && ids[x] != 0 && !stack@.contains(x as usize) ==> #[trigger] succ_ok(adj@, ids@, x),
            rooted(es, ids@, rs),
        decreases 2 * unassigned(ids@) + stack.len(),
    {
        let ghost st0 = stack@;
        let ghost measure0 = 2 * unassigned(ids@) + stack.len();
        let x = stack[stack.len() - 1];
        stack.pop();
        assert(st0 =~= stack@.push(x));
        proof {
            lemma_adjacency_at(adj@, es, n, x as int);
        }
        let nbrs = &adj[x];
        let mut j: usize = 0;
        while j < nbrs.len()
            invariant
                adjacency_of(adj@, es, n as nat),
                nbrs@ == adj@[x as int]@,
                lists_out(es, x, nbrs@),
                forall|i: int| 0 <= i < nbrs@.len() ==> #[trigger] nbrs@[i] < n,
                n == ids.len(),
                x < n,
                ids[x as int] == count,
                v < n,
                ids[v as int] == count,
                count >= 1,
                j <= nbrs.len(),
                2 * unassigned(ids@) + stack.len() < measure0,
                forall|y: int| 0 <= y < n && ids_in[y] != 0 ==> #[trigger] ids[y] == ids_in[y],
                forall|y: int| 0 <= y < n ==> #[trigger] ids[y] <= count,
                forall|i: int| 0 <= i < stack.len() ==> #[trigger] stack[i] < n && ids[stack[i] as int] == count,
                forall|y: int|
                    0 <= y < n && ids[y] != 0 && y != x && !stack@.contains(y as usize) ==> #[trigger] succ_ok(
                        adj@,
                        ids@,
                        y,
                    ),
                forall|i: int| 0 <= i < j ==> ids[#[trigger] nbrs@[i] as int] != 0,
                rooted(es, ids@, rs),
            decreases nbrs.len() - j,
        {
            let t = nbrs[j];
            assert(adj@[x as int]@[j as int] == t);
            if ids[t] == 0 {
                assert(t != v);
                let ghost ids0 = ids@;
                let ghost st1 = stack@;
                proof {
                    lemma_unassigned_update(ids@, t as int, count);
                    assert(nbrs@[j as int] == t);
                    assert(nbrs@.contains(t));
                    lemma_lists_out(es, x, nbrs@, t);
                    lemma_rooted_reach(es, ids0, rs, x as int);
                    lemma_reaches_step(es, rs[count - 1], x, t);
                    lemma_rooted_assign(es, ids0, rs, t, count);
                    assert forall|y: int|
                        0 <= y < n && ids0[y] != 0 && y != x && !st1.contains(y as usize) implies #[trigger] succ_ok(
                        adj@,
                        ids0.update(t as int, count),
                        y,
                    ) by {
                        lemma_adjacency_at(adj@, es, n, y);
                        lemma_succ_ok_grow(adj@, ids0, t as int, count, y);
                    }
                }
                ids.set(t, count);
                stack.push(t);
                assert forall|y: int|
                    0 <= y < n && ids[y] != 0 && y != x && !stack@.contains(y as usize) implies #[trigger] succ_ok(
                    adj@,
                    ids@,
                    y,
                ) by {
                    if y == t {
                        assert(stack[stack.len() - 1] == t);
                    } else {
                        assert(ids0[y] != 0);
                        if st1.contains(y as usize) {
                            let w = choose|w: int| 0 <= w < st1.len() && st1[w] == y as usize;
                            assert(stack[w] == y as usize);
                        }
                    }
                }
            }
            j += 1;
        }
        assert(succ_ok(adj@, ids@, x as int));
    }
}

/// `u` and `v` carry the same id.
pub open spec fn same_id(ids: Seq<usize>, u: usize, v: usize) -> bool {
    ids[u as int] == ids[v as int]
}

/// `ids` gives each vertex a component id in `1..=count`, every such id is
/// used, and two vertices share their id exactly when each reaches the
/// other.
#[verifier::opaque]
pub open spec fn labels_components(es: Seq<(usize, usize)>, ids: Seq<usize>, count: nat) -> bool {
    &&& forall|v: int| 0 <= v < ids.len() ==> 1 <= #[trigger] ids[v] <= count
    &&& forall|c: usize| 1 <= c <= count ==> #[trigger] ids.contains(c)
    &&& forall|u: usize, v: usize|
        u < ids.len() && v < ids.len() && #[trigger] mutually_reachable(es, u, v) ==> ids[u as int] == ids[v as int]
    &&& forall|u: usize, v: usize|
        u < ids.len() && v < ids.len() && #[trigger] same_id(ids, u, v) ==> mutually_reachable(es, u, v)
}

/// Component `c + 1` was started at position `rp[c]` of `order`, by which time
/// every vertex placed before it had an id of at most `c`.
#[verifier::opaque]
spec fn ordered_roots(order: Seq<usize>, ids: Seq<usize>, roots: Seq<usize>, rp: Seq<int>) -> bool {
    &&& rp.len() == roots.len()
    &&& forall|c: int| 0 <= c < rp.len() ==> 0 <= #[trigger] rp[c] < order.len() && order[rp[c]] == roots[c]
    &&& forall|c: int, i: int|
        #![trigger rp[c], ids[order[i] as int]]
        0 <= c < rp.len() && 0 <= i < rp[c] ==> 1 <= ids[order[i] as int] <= c
}

/// Starting a component at position `k`, when every earlier vertex is
/// labelled, keeps `ordered_roots`.
proof fn lemma_ordered_roots_grow(
    order: Seq<usize>,
    ids0: Seq<usize>,
    ids1: Seq<usize>,
    roots: Seq<usize>,
    rp: Seq<int>,
    k: int,
)
    requires
        ordered_roots(order, ids0, roots, rp),
        0 <= k < order.len(),
        forall|i: int| 0 <= i < order.len() ==> #[trigger] order[i] < ids0.len(),
        ids1.len() == ids0.len(),
        forall|j: int| 0 <= j < k ==> ids0[#[trigger] order[j] as int] != 0,
        forall|x: int| 0 <= x < ids0.len() ==> #[trigger] ids0[x] <= roots.len(),
        forall|x: int| 0 <= x < ids0.len() && ids0[x] != 0 ==> #[trigger] ids1[x] == ids0[x],
    ensures
        ordered_roots(order, ids1, roots.push(order[k]), rp.push(k)),
{
    reveal(ordered_roots);
    let r2 = roots.push(order[k]);
    let p2 = rp.push(k);
    assert forall|c: int| 0 <= c < p2.len() implies 0 <= #[trigger] p2[c] < order.len() && order[p2[c]] == r2[c] by {
        if c < rp.len() {
            assert(p2[c] == rp[c] && r2[c] == roots[c]);
        }
    }
    assert forall|c: int, i: int|
        #![trigger p2[c], ids1[order[i] as int]]
        0 <= c < p2.len() && 0 <= i < p2[c] implies 1 <= ids1[order[i] as int] <= c by {
        if c < rp.len() {
            assert(p2[c] == rp[c]);
            assert(1 <= ids0[order[i] as int] <= c);
        } else {
            assert(ids0[order[i] as int] != 0);
        }
    }
}

/// A vertex and the root of its component reach each other: the root came
/// first in decreasing finishing order among the unlabelled vertices, so a
/// vertex it reaches that could not reach it back would lead, in the
/// reversed graph, to a vertex placed earlier, which is labelled already and
/// would have claimed it.
proof fn lemma_root_mutual(
    es: Seq<(usize, usize)>,
    s: Seq<usize>,
    roots: Seq<usize>,
    order: Seq<usize>,
    rp: Seq<int>,
    x: usize,
)
    requires
        arcs_within(es, s.len()),
        closed_under_arcs(es, s),
        rooted(es, s, roots),
        x < s.len(),
        forall|y: int| 0 <= y < s.len() ==> s[y] != 0,
        is_vertex_permutation(order, s.len()),
        finish_order_ok(flipped(es), order),
        ordered_roots(order, s, roots, rp),
    ensures
        1 <= s[x as int] <= roots.len(),
        mutually_reachable(es, roots[s[x as int] - 1], x),
{
    lemma_rooted_reach(es, s, roots, x as int);
    let c = s[x as int] - 1;
    let r = roots[c];
    reveal(ordered_roots);
    let j = rp[c];
    assert(order[j] == r);
    lemma_reaches_unflipped(es, r, x);
    assert(reaches(flipped(es), x, order[j]));
    if reaches(flipped(es), order[j], x) {
        lemma_reaches_flipped(es, order[j], x);
    } else {
        let i = lemma_reaches_before(flipped(es), order, j, x);
        lemma_reaches_flipped(es, x, order[i]);
        assert(1 <= s[order[i] as int] <= c);
        let p = choose|p: Seq<usize>| #[trigger] is_walk(es, p) && p[0] == order[i] && p.last() == x;
        lemma_closed_walk(es, s, p);
        assert(false);
    }
}

/// What the labelling loop leaves behind is a component labelling: every
/// vertex labelled, labels closed under edges, and the vertices of each
/// label reaching each other through its root.
proof fn lemma_labels_partition(
    es: Seq<(usize, usize)>,
    adj: Seq<Vec<usize>>,
    s: Seq<usize>,
    roots: Seq<usize>,
    count: usize,
    order: Seq<usize>,
    rp: Seq<int>,
)
    requires
        adjacency_of(adj, es, s.len()),
        arcs_within(es, s.len()),
        rooted(es, s, roots),
        roots.len() == count,
        forall|x: int| 0 <= x < s.len() ==> s[x] != 0,
        forall|x: int| 0 <= x < s.len() ==> #[trigger] s[x] <= count,
        forall|x: int| 0 <= x < s.len() && s[x] != 0 ==> #[trigger] succ_ok(adj, s, x),
        is_vertex_permutation(order, s.len()),
        finish_order_ok(flipped(es), order),
        ordered_roots(order, s, roots, rp),
    ensures
        labels_components(es, s, count as nat),
{
    reveal(labels_components);
    let n = s.len();
    assert(closed_under_arcs(es, s)) by {
        assert forall|q: int| 0 <= q < es.len() && s[(#[trigger] es[q]).0 as int] != 0 implies s[es[q].1 as int]
            != 0 && s[es[q].1 as int] <= s[es[q].0 as int] by {
            let (a, b) = es[q];
            assert(es.contains((a, b)));
            lemma_adjacency_at(adj, es, n, a as int);
            lemma_lists_out(es, a, adj[a as int]@, b);
            assert(adj[a as int]@.contains(b));
            let i = choose|i: int| 0 <= i < adj[a as int]@.len() && adj[a as int]@[i] == b;
            assert(succ_ok(adj, s, a as int));
            assert(s[adj[a as int]@[i] as int] != 0);
        }
    }
    assert forall|u: usize, v: usize|
        u < n && v < n && #[trigger] mutually_reachable(es, u, v) implies s[u as int] == s[v as int] by {
        let p = choose|p: Seq<usize>| #[trigger] is_walk(es, p) && p[0] == u && p.last() == v;
        let q = choose|q: Seq<usize>| #[trigger] is_walk(es, q) && q[0] == v && q.last() == u;
        lemma_closed_walk(es, s, p);
        lemma_closed_walk(es, s, q);
    }
    assert forall|c: usize| 1 <= c <= count implies #[trigger] s.contains(c) by {
        lemma_rooted_root(es, s, roots, c - 1);
        assert(s[roots[c - 1] as int] == c);
    }
    assert forall|x: usize| x < n implies #[trigger] mutually_reachable(es, roots[s[x as int] - 1], x) by {
        lemma_root_mutual(es, s, roots, order, rp, x);
    }
    assert forall|u: usize, v: usize| u < n && v < n && #[trigger] same_id(s, u, v) implies mutually_reachable(
        es,
        u,
        v,
    ) by {
        let r = roots[s[u as int] - 1];
        assert(mutually_reachable(es, r, u));
        assert(mutually_reachable(es, r, v));
        lemma_reaches_trans(es, u, r, v);
        lemma_reaches_trans(es, v, r, u);
    }
}

/// Component ids from Kosaraju's two passes: the first is a finishing-order
/// search on the reversed graph, the second labels, in that order, every
/// vertex reached along the graph's own edges from each not yet labelled vertex.
/// Returns the id of each vertex (ids count from 1 in order of discovery) and
/// the number of components.
pub fn compute_sccs(g: &Digraph) -> (r: (Vec<usize>, usize))
    ensures
        r.0.len() == graph_labels(*g).len(),
        labels_components(graph_arcs(*g), r.0@, r.1 as nat),
{
    let ghost es = graph_arcs(*g);
    let n = vertex_count(g);
    let rev = graph_reverse(g);
    let order = topo_sort(&rev);
    let adj = adjacency(g);
    assert(adjacency_of(adj@, es, n as nat)) by {
        reveal(adjacency_of);
    }
    let mut ids: Vec<usize> = Vec::new();
    while ids.len() < n
        invariant
            ids.len() <= n,
            forall|k: int| 0 <= k < ids.len() ==> ids[k] == 0,
        decreases n - ids.len(),
    {
        ids.push(0);
    }
    let mut count: usize = 0;
    let ghost mut roots: Seq<usize> = Seq::empty();
    let ghost mut rp: Seq<int> = Seq::empty();
    assert(rooted(es, ids@, roots)) by {
        reveal(rooted);
    }
    assert(ordered_roots(order@, ids@, roots, rp)) by {
        reveal(ordered_roots);
    }
    let mut k: usize = 0;
    while k < order.len()
        invariant
            k <= order.len(),
            is_vertex_permutation(order@, n as nat),
            n == ids.len() == graph_labels(*g).len(),
            es == graph_arcs(*g),
            adjacency_of(adj@, es, n as nat),
            count <= k,
            roots.len() == count,
            forall|x: int| 0 <= x < n ==> #[trigger] ids[x] <= count,
            forall|x: int| 0 <= x < n && ids[x] != 0 ==> #[trigger] succ_ok(adj@, ids@, x),
            forall|j: int| 0 <= j < k ==> ids[#[trigger] order[j] as int] != 0,
            rooted(es, ids@, roots),
            finish_order_ok(flipped(es), order@),
            ordered_roots(order@, ids@, roots, rp),
        decreases order.len() - k,
    {
        let v = order[k];
        if ids[v] == 0 {
            count += 1;
            let ghost ids0 = ids@;
            label_component(&adj, &mut ids, v, count, Ghost(es), Ghost(roots));
            proof {
                lemma_ordered_roots_grow(order@, ids0, ids@, roots, rp, k as int);
                rp = rp.push(k as int);
                roots = roots.push(v);
                assert forall|j: int| 0 <= j < k implies ids[#[trigger] order[j] as int] != 0 by {
                    assert(ids0[order[j] as int] != 0);
                }
            }
        }
        k += 1;
    }
    proof {
        assert forall|x: int| 0 <= x < n implies ids@[x] != 0 by {
            assert(order@.contains(x as usize));
            let j = choose|j: int| 0 <= j < order.len() && order[j] == x as usize;
            assert(ids[order[j] as int] != 0);
        }
        lemma_labels_partition(es, adj@, ids@, roots, count, order@, rp);
    }
    (ids, count)
}

/// The five largest component sizes of `g`, largest first, padded with
/// zeros.
pub open spec fn top_component_sizes(es: Seq<(usize, usize)>, n: nat, r: Seq<usize>) -> bool {
    exists|ids: Seq<usize>, count: usize, sizes: Seq<usize>|
        #![trigger tallies(ids, count as nat, sizes), labels_components(es, ids, count as nat)]
        ids.len() == n && labels_components(es, ids, count as nat) && tallies(ids, count as nat, sizes)
            && top_five_of(sizes, r)
}

/// The sizes of the five largest strongly connected components, largest
/// first, padded with zeros when there are fewer than five.
pub fn kosaraju(g: &Digraph) -> (r: [u32; 5])
    ensures
        top_component_sizes(graph_arcs(*g), graph_labels(*g).len(), widen(r@)),
{
    let n = vertex_count(g);
    let (ids, count) = compute_sccs(g);
    assert(ids_in_range(ids@, count as nat)) by {
        reveal(labels_components);
    }
    let sizes = component_sizes(&ids, count);
    proof {
        assert forall|i: int| 0 <= i < sizes.len() implies #[trigger] sizes[i] <= u32::MAX by {
            lemma_count_of_bound(ids@, (i + 1) as usize);
            assert(sizes@[i] as nat == size_table(ids@, count as nat)[i]);
        }
    }
    let r = top_sizes(&sizes);
    assert(tallies(ids@, count as nat, sizes@));
    assert(labels_components(graph_arcs(*g), ids@, count as nat));
    r
}

} // verus!
