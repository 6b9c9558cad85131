use crate::graph::{
    adjacency, arcs_within, graph_arcs, graph_labels, lists_out, out_list, vertex_count, Digraph,
};
use crate::order::{lemma_pending_update, pending};
use crate::sizes::{count_of, lemma_count_of_push};
use vstd::prelude::*;

verus! {

broadcast use vstd::seq_lib::group_to_multiset_ensures;

/// A vertex with edges coming in from vertices not yet listed.
pub const WAITING: u8 = 0;

/// A vertex all of whose predecessors are listed, not yet listed itself.
pub const QUEUED: u8 = 1;

/// A listed vertex.
pub const LISTED: u8 = 2;

/// Edges into `v` whose source is not listed yet.
pub open spec fn waiting_in(es: Seq<(usize, usize)>, status: Seq<u8>, v: usize) -> nat
    decreases es.len(),
{
    if es.len() == 0 {
        0
    } else {
        waiting_in(es.drop_last(), status, v) + if es.last().1 == v && status[es.last().0 as int] != LISTED {
            1nat
        } else {
            0nat
        }
    }
}

/// How many edges run from `a` to `b`.
pub open spec fn arc_count(es: Seq<(usize, usize)>, a: usize, b: usize) -> nat
    decreases es.len(),
{
    if es.len() == 0 {
        0
    } else {
        arc_count(es.drop_last(), a, b) + if es.last() == (a, b) { 1nat } else { 0nat }
    }
}

/// Every listed vertex comes after the sources of all edges into it.
pub open spec fn topologically_listed(es: Seq<(usize, usize)>, order: Seq<usize>) -> bool {
    forall|i: int, a: usize|
        0 <= i < order.len() && #[trigger] es.contains((a, order[i])) ==> exists|j: int| 0 <= j < i && order[j] == a
}

/// Every vertex left out has an edge coming in from a vertex left out, so
/// it lies on or after a cycle.
pub open spec fn rest_blocked(es: Seq<(usize, usize)>, order: Seq<usize>, n: nat) -> bool {
    forall|v: usize| v < n && !order.contains(v) ==> exists|a: usize| !order.contains(a) && #[trigger] es.contains((a, v))
}

/// Listing `u` removes its edges from the waiting counts.
proof fn lemma_waiting_list(es: Seq<(usize, usize)>, status: Seq<u8>, u: usize, v: usize)
    requires
        arcs_within(es, status.len()),
        u < status.len(),
        status[u as int] != LISTED,
    ensures
        waiting_in(es, status.update(u as int, LISTED), v) + arc_count(es, u, v) == waiting_in(es, status, v),
    decreases es.len(),
{
    if es.len() > 0 {
        let pre = es.drop_last();
        assert(arcs_within(pre, status.len())) by {
            assert forall|k: int| 0 <= k < pre.len() implies (#[trigger] pre[k]).0 < status.len() && pre[k].1
                < status.len() by {
                assert(pre[k] == es[k]);
            }
        }
        lemma_waiting_list(pre, status, u, v);
        assert(es[es.len() - 1] == es.last());
    }
}

/// At most one waiting edge per edge.
proof fn lemma_waiting_bound(es: Seq<(usize, usize)>, status: Seq<u8>, v: usize)
    ensures
        waiting_in(es, status, v) <= es.len(),
    decreases es.len(),
{
    if es.len() > 0 {
        lemma_waiting_bound(es.drop_last(), status, v);
    }
}

/// Counts that do not change with statuses other than `LISTED` ones.
proof fn lemma_waiting_same(es: Seq<(usize, usize)>, s1: Seq<u8>, s2: Seq<u8>, v: usize)
    requires
        arcs_within(es, s1.len()),
        s1.len() == s2.len(),
        forall|x: int| 0 <= x < s1.len() ==> (#[trigger] s1[x] == LISTED) == (s2[x] == LISTED),
    ensures
        waiting_in(es, s1, v) == waiting_in(es, s2, v),
    decreases es.len(),
{
    if es.len() > 0 {
        let pre = es.drop_last();
        assert(arcs_within(pre, s1.len())) by {
            assert forall|k: int| 0 <= k < pre.len() implies (#[trigger] pre[k]).0 < s1.len() && pre[k].1 < s1.len() by {
                assert(pre[k] == es[k]);
            }
        }
        lemma_waiting_same(pre, s1, s2, v);
        assert(es[es.len() - 1] == es.last());
    }
}

/// With nothing waiting, every edge into `v` comes from a listed vertex.
proof fn lemma_waiting_zero(es: Seq<(usize, usize)>, status: Seq<u8>, v: usize, a: usize)
    requires
        waiting_in(es, status, v) == 0,
        es.contains((a, v)),
    ensures
        status[a as int] == LISTED,
    decreases es.len(),
{
    let pre = es.drop_last();
    if es.last() != (a, v) {
        let k = choose|k: int| 0 <= k < es.len() && es[k] == (a, v);
        assert(k < pre.len());
        assert(pre[k] == (a, v));
        lemma_waiting_zero(pre, status, v, a);
    }
}

/// Something waiting means an edge into `v` from an unlisted vertex.
proof fn lemma_waiting_some(es: Seq<(usize, usize)>, status: Seq<u8>, v: usize) -> (a: usize)
    requires
        waiting_in(es, status, v) > 0,
    ensures
        es.contains((a, v)),
        status[a as int] != LISTED,
    decreases es.len(),
{
    let pre = es.drop_last();
    if es.last().1 == v && status[es.last().0 as int] != LISTED {
        assert(es[es.len() - 1] == (es.last().0, v));
        es.last().0
    } else {
        let a = lemma_waiting_some(pre, status, v);
        let k = choose|k: int| 0 <= k < pre.len() && pre[k] == (a, v);
        assert(es[k] == (a, v));
        a
    }
}

/// An out-list holds `t` once for each edge from `u` to `t`.
proof fn lemma_out_list_count(es: Seq<(usize, usize)>, u: usize, t: usize)
    ensures
        out_list(es, u).to_multiset().count(t) == arc_count(es, u, t),
    decreases es.len(),
{
    if es.len() > 0 {
        let pre = es.drop_last();
        lemma_out_list_count(pre, u, t);
        let rest = out_list(pre, u);
        if es.last().0 == u {
            vstd::seq_lib::lemma_multiset_commutative(seq![es.last().1], rest);
            assert(seq![es.last().1].to_multiset().count(t) == if es.last().1 == t { 1nat } else { 0nat }) by {
                assert(seq![es.last().1] =~= Seq::<usize>::empty().push(es.last().1));
            }
        }
    }
}

/// `count_of` is the multiset count.
proof fn lemma_count_of_multiset(s: Seq<usize>, x: usize)
    ensures
        count_of(s, x) == s.to_multiset().count(x),
    decreases s.len(),
{
    if s.len() > 0 {
        lemma_count_of_multiset(s.drop_last(), x);
        assert(s =~= s.drop_last().push(s.last()));
        vstd::seq_lib::to_multiset_build(s.drop_last(), s.last());
    }
}

/// A prefix counts no more than the whole.
proof fn lemma_count_of_prefix(s: Seq<usize>, j: int, x: usize)
    requires
        0 <= j <= s.len(),
    ensures
        count_of(s.take(j), x) <= count_of(s, x),
    decreases s.len(),
{
    if j < s.len() {
        assert(s.take(j) =~= s.drop_last().take(j));
        lemma_count_of_prefix(s.drop_last(), j, x);
    } else {
        assert(s.take(j) =~= s);
    }
}

/// Appending a value that does not occur keeps a sequence free of repeats.
proof fn lemma_push_fresh(q: Seq<usize>, t: usize)
    requires
        q.no_duplicates(),
        !q.contains(t),
    ensures
        q.push(t).no_duplicates(),
        forall|x: usize| #[trigger] q.push(t).contains(x) <==> q.contains(x) || x == t,
{
    assert forall|x: usize| #[trigger] q.push(t).contains(x) <==> q.contains(x) || x == t by {
        if q.push(t).contains(x) && x != t {
            let i = choose|i: int| 0 <= i < q.len() + 1 && q.push(t)[i] == x;
            assert(q[i] == x);
        }
        if q.contains(x) {
            let i = choose|i: int| 0 <= i < q.len() && q[i] == x;
            assert(q.push(t)[i] == x);
        }
        if x == t {
            assert(q.push(t)[q.len() as int] == t);
        }
    }
}

/// Dropping the last entry of a sequence free of repeats loses exactly that
/// value.
proof fn lemma_drop_last_distinct(q: Seq<usize>)
    requires
        q.no_duplicates(),
        q.len() > 0,
    ensures
        q.drop_last().no_duplicates(),
        forall|x: usize| #[trigger] q.drop_last().contains(x) <==> q.contains(x) && x != q.last(),
{
    assert forall|x: usize| #[trigger] q.drop_last().contains(x) <==> q.contains(x) && x != q.last() by {
        if q.drop_last().contains(x) {
            let i = choose|i: int| 0 <= i < q.len() - 1 && q.drop_last()[i] == x;
            assert(q[i] == x);
            assert(q[q.len() - 1] == q.last());
        }
        if q.contains(x) && x != q.last() {
            let i = choose|i: int| 0 <= i < q.len() && q[i] == x;
            assert(i != q.len() - 1);
            assert(q.drop_last()[i] == x);
        }
    }
}

/// Kahn's topological sort: lists a vertex once its in-degree, counted over
/// edges from unlisted vertices, has dropped to zero, keeping that count in
/// a side table so the graph is not changed. Every vertex left out has an
/// edge from another one left out, so on an acyclic graph none is; a vertex
/// on or after a cycle never is listed, which makes this no ordering for
/// component search.
pub fn kahn_topo_sort(g: &Digraph) -> (order: Vec<usize>)
    ensures
        order@.no_duplicates(),
        forall|i: int| 0 <= i < order.len() ==> #[trigger] order[i] < graph_labels(*g).len(),
        topologically_listed(graph_arcs(*g), order@),
        rest_blocked(graph_arcs(*g), order@, graph_labels(*g).len()),
{
    let ghost es = graph_arcs(*g);
    let n = vertex_count(g);
    let m = crate::graph::edge_count(g);
    let adj = adjacency(g);
    let mut status: Vec<u8> = Vec::new();
    let mut indeg: Vec<usize> = Vec::new();
    while status.len() < n
        invariant
            status.len() == indeg.len() <= n,
            forall|k: int| 0 <= k < status.len() ==> status[k] == WAITING && indeg[k] == 0,
        decreases n - status.len(),
    {
        status.push(WAITING);
        indeg.push(0);
    }
    let mut k: usize = 0;
    while k < m
        invariant
            k <= m == es.len(),
            es == graph_arcs(*g),
            m <= crate::graph::max_index(),
            arcs_within(es, n as nat),
            status.len() == indeg.len() == n,
            forall|x: int| 0 <= x < n ==> #[trigger] status[x] == WAITING,
            forall|v: int| 0 <= v < n ==> #[trigger] indeg[v] == waiting_in(es.take(k as int), status@, v as usize),
        decreases m - k,
    {
        let (a, b) = crate::graph::arc_at(g, k);
        proof {
            assert(es.take(k as int + 1).drop_last() =~= es.take(k as int));
            assert(es.take(k as int + 1).last() == (a, b));
            assert(es[k as int].1 < n);
            assert forall|v: int| 0 <= v < n implies #[trigger] waiting_in(es.take(k as int + 1), status@, v as usize) == waiting_in(
                es.take(k as int),
                status@,
                v as usize,
            ) + if b == v { 1nat } else { 0nat } by {
                assert(status[a as int] == WAITING);
            }
            assert(waiting_in(es.take(k as int), status@, b) <= k) by {
                lemma_waiting_bound(es.take(k as int), status@, b);
            }
        }
        let d = indeg[b];
        indeg.set(b, d + 1);
        k += 1;
    }
    assert(es.take(m as int) =~= es);
    let mut queue: Vec<usize> = Vec::new();
    let mut v: usize = 0;
    while v < n
        invariant
            v <= n,
            es == graph_arcs(*g),
            arcs_within(es, n as nat),
            status.len() == indeg.len() == n,
            forall|x: int| 0 <= x < n ==> #[trigger] indeg[x] == waiting_in(es, status@, x as usize),
            forall|x: int| 0 <= x < n ==> #[trigger] status[x] != LISTED,
            forall|x: int| 0 <= x < n ==> #[trigger] status[x] <= 2,
            forall|x: int| 0 <= x < n ==> (#[trigger] status[x] == WAITING) == (x >= v || indeg[x] > 0),
            forall|x: int| 0 <= x < n ==> (status[x] == QUEUED) == queue@.contains(x as usize),
            forall|i: int| 0 <= i < queue.len() ==> #[trigger] queue[i] < n,
            queue@.no_duplicates(),
        decreases n - v,
    {
        if indeg[v] == 0 {
            let ghost s0 = status@;
            let ghost q0 = queue@;
            proof {
                assert(status[v as int] == WAITING);
                assert(!queue@.contains(v));
                lemma_push_fresh(q0, v);
            }
            status.set(v, QUEUED);
            queue.push(v);
            proof {
                assert forall|x: int| 0 <= x < n implies #[trigger] indeg[x] == waiting_in(es, status@, x as usize) by {
                    lemma_waiting_same(es, s0, status@, x as usize);
                }
            }
        }
        v += 1;
    }
    let mut order: Vec<usize> = Vec::new();
    while queue.len() > 0
        invariant
            es == graph_arcs(*g),
            arcs_within(es, n as nat),
            status.len() == indeg.len() == adj.len() == n,
            forall|x: int| 0 <= x < n ==> lists_out(es, x as usize, (#[trigger] adj[x])@),
            forall|x: int, j: int| 0 <= x < n && 0 <= j < adj[x]@.len() ==> #[trigger] adj[x]@[j] < n,
            forall|x: int| 0 <= x < n ==> #[trigger] status[x] <= 2,
            forall|x: int| 0 <= x < n ==> #[trigger] indeg[x] == waiting_in(es, status@, x as usize),
            forall|x: int| 0 <= x < n ==> (#[trigger] status[x] == WAITING) == (indeg[x] > 0),
            forall|x: int| 0 <= x < n ==> (status[x] == QUEUED) == queue@.contains(x as usize),
            forall|x: int| 0 <= x < n ==> (status[x] == LISTED) == order@.contains(x as usize),
            forall|i: int| 0 <= i < queue.len() ==> #[trigger] queue[i] < n,
            forall|i: int| 0 <= i < order.len() ==> #[trigger] order[i] < n,
            queue@.no_duplicates(),
            order@.no_duplicates(),
            topologically_listed(es, order@),
        decreases pending(status@),
    {
        let u = queue[queue.len() - 1];
        let ghost q0 = queue@;
        let ghost o0 = order@;
        proof {
            lemma_drop_last_distinct(q0);
        }
        queue.pop();
        let ghost s0 = status@;
        let ghost measure0 = pending(status@);
        proof {
            lemma_pending_update(status@, u as int, LISTED);
            assert(s0[u as int] == QUEUED);
            assert forall|i: int, a: usize| 0 <= i < order.len() + 1 && #[trigger] es.contains((a, order@.push(u)[i]))
                implies exists|j: int| 0 <= j < i && order@.push(u)[j] == a by {
                if i == order.len() {
                    lemma_waiting_zero(es, s0, u, a);
                    let j = choose|j: int| 0 <= j < order.len() && order[j] == a;
                    assert(order@.push(u)[j] == a);
                } else {
                    assert(order@.push(u)[i] == order[i]);
                    let j = choose|j: int| 0 <= j < i && order[j] == a;
                    assert(order@.push(u)[j] == a);
                }
            }
        }
        proof {
            assert(q0.drop_last() == queue@);
            assert(!o0.contains(u));
            lemma_push_fresh(o0, u);
        }
        status.set(u, LISTED);
        order.push(u);
        let ghost s1 = status@;
        proof {
            assert forall|x: int| 0 <= x < n implies (status[x] == QUEUED) == queue@.contains(x as usize) by {
                assert(q0.last() == u);
            }
            assert(s1 == s0.update(u as int, LISTED));
            assert forall|x: int| 0 <= x < n implies #[trigger] waiting_in(es, s1, x as usize) + arc_count(es, u, x as usize)
                == waiting_in(es, s0, x as usize) && indeg[x] + count_of(adj[u as int]@.take(0), x as usize)
                == waiting_in(es, s0, x as usize) by {
                lemma_waiting_list(es, s0, u, x as usize);
                assert(adj[u as int]@.take(0) =~= Seq::<usize>::empty());
            }
        }
        let nbrs = &adj[u];
        let mut j: usize = 0;
        while j < nbrs.len()
            invariant
                es == graph_arcs(*g),
                arcs_within(es, n as nat),
                u < n,
                nbrs@ == adj[u as int]@,
                lists_out(es, u, nbrs@),
                j <= nbrs.len(),
                status.len() == indeg.len() == adj.len() == n,
                s1.len() == n,
                forall|x: int, i: int| 0 <= x < n && 0 <= i < adj[x]@.len() ==> #[trigger] adj[x]@[i] < n,
                forall|x: int| 0 <= x < n ==> #[trigger] status[x] <= 2,
                forall|x: int| 0 <= x < n ==> (#[trigger] status[x] == LISTED) == (s1[x] == LISTED),
                forall|x: int| 0 <= x < n ==> #[trigger] waiting_in(es, s1, x as usize) + arc_count(es, u, x as usize) == waiting_in(
                    es,
                    s0,
                    x as usize,
                ),
                forall|x: int| 0 <= x < n ==> #[trigger] indeg[x] + count_of(nbrs@.take(j as int), x as usize)
                    == waiting_in(es, s0, x as usize),
                forall|x: int| 0 <= x < n ==> (#[trigger] status[x] == WAITING) == (indeg[x] > 0),
                forall|x: int| 0 <= x < n ==> (status[x] == QUEUED) == queue@.contains(x as usize),
                forall|x: int| 0 <= x < n ==> (status[x] == LISTED) == order@.contains(x as usize),
                forall|i: int| 0 <= i < queue.len() ==> #[trigger] queue[i] < n,
                queue@.no_duplicates(),
                pending(status@) < measure0,
            decreases nbrs.len() - j,
        {
            let t = nbrs[j];
            proof {
                assert(adj[u as int]@[j as int] == t);
                assert(nbrs@.take(j as int + 1) =~= nbrs@.take(j as int).push(t));
                lemma_count_of_push(nbrs@.take(j as int), t, t);
                lemma_count_of_prefix(nbrs@, j as int + 1, t);
                lemma_count_of_multiset(nbrs@, t);
                lemma_out_list_count(es, u, t);
                assert forall|x: int| 0 <= x < n implies #[trigger] count_of(nbrs@.take(j as int + 1), x as usize) == count_of(
                    nbrs@.take(j as int),
                    x as usize,
                ) + if t == x { 1nat } else { 0nat } by {
                    lemma_count_of_push(nbrs@.take(j as int), t, x as usize);
                }
            }
            proof {
                assert(indeg[t as int] + count_of(nbrs@.take(j as int), t) == waiting_in(es, s0, t));
                assert(waiting_in(es, s1, t) + arc_count(es, u, t) == waiting_in(es, s0, t));
                assert(nbrs@.to_multiset() == out_list(es, u).to_multiset());
            }
            let d = indeg[t];
            indeg.set(t, d - 1);
            if d == 1 {
                let ghost q1 = queue@;
                proof {
                    lemma_pending_update(status@, t as int, QUEUED);
                    assert(!queue@.contains(t));
                    lemma_push_fresh(q1, t);
                }
                status.set(t, QUEUED);
                queue.push(t);
                proof {
                    assert(queue@ == q1.push(t));
                }
            }
            j += 1;
        }
        proof {
            assert(nbrs@.take(j as int) =~= nbrs@);
            assert forall|x: int| 0 <= x < n implies #[trigger] indeg[x] == waiting_in(es, status@, x as usize) by {
                lemma_count_of_multiset(nbrs@, x as usize);
                lemma_out_list_count(es, u, x as usize);
                lemma_waiting_same(es, s1, status@, x as usize);
            }
        }
    }
    proof {
        assert forall|x: usize| x < n && !order@.contains(x) implies exists|a: usize| !order@.contains(a) && #[trigger] es.contains(
            (a, x),
        ) by {
            assert(status[x as int] == WAITING);
            let a = lemma_waiting_some(es, status@, x);
            let k = choose|k: int| 0 <= k < es.len() && es[k] == (a, x);
            assert(es[k].0 < n);
        }
    }
    order
}

} // verus!
