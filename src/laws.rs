use crate::graph::{is_walk, lemma_reaches_self, lemma_reaches_step, mutually_reachable, reaches, walk_step};
use crate::scc::{labels_components, same_id};
use crate::sizes::{count_of, ids_in_range, lemma_sizes_sum, size_table, total};
use vstd::prelude::*;

verus! {

/// `es` is the single cycle `0 -> 1 -> ... -> n-1 -> 0`.
pub open spec fn is_full_cycle(es: Seq<(usize, usize)>, n: usize) -> bool {
    &&& n >= 1
    &&& es.len() == n
    &&& forall|i: int| 0 <= i < n ==> #[trigger] es[i] == (i as usize, if i + 1 == n { 0usize } else { (i + 1) as usize })
}

/// A value that does not occur is counted zero times.
proof fn lemma_count_of_absent(s: Seq<usize>, x: usize)
    requires
        !s.contains(x),
    ensures
        count_of(s, x) == 0,
    decreases s.len(),
{
    if s.len() > 0 {
        let pre = s.drop_last();
        assert(s.last() == s[s.len() - 1]);
        assert forall|i: int| 0 <= i < pre.len() implies pre[i] != x by {
            assert(pre[i] == s[i]);
        }
        lemma_count_of_absent(pre, x);
    }
}

/// A value that occurs at exactly one position is counted once.
proof fn lemma_count_of_single(s: Seq<usize>, x: usize)
    requires
        s.contains(x),
        forall|i: int, j: int| 0 <= i < s.len() && 0 <= j < s.len() && s[i] == x && s[j] == x ==> i == j,
    ensures
        count_of(s, x) == 1,
    decreases s.len(),
{
    let pre = s.drop_last();
    if s.last() == x {
        assert forall|i: int| 0 <= i < pre.len() implies pre[i] != x by {
            assert(pre[i] == s[i]);
            assert(s[s.len() - 1] == x);
        }
        lemma_count_of_absent(pre, x);
    } else {
        let k = choose|k: int| 0 <= k < s.len() && s[k] == x;
        assert(k < pre.len());
        assert(pre[k] == x);
        assert forall|i: int, j: int| 0 <= i < pre.len() && 0 <= j < pre.len() && pre[i] == x && pre[j] == x implies i
            == j by {
            assert(s[i] == x && s[j] == x);
        }
        lemma_count_of_single(pre, x);
    }
}

/// When every entry is `x`, `x` is counted as often as there are entries.
proof fn lemma_count_of_all(s: Seq<usize>, x: usize)
    requires
        forall|i: int| 0 <= i < s.len() ==> s[i] == x,
    ensures
        count_of(s, x) == s.len(),
    decreases s.len(),
{
    if s.len() > 0 {
        let pre = s.drop_last();
        assert(s[s.len() - 1] == x);
        assert forall|i: int| 0 <= i < pre.len() implies pre[i] == x by {
            assert(pre[i] == s[i]);
        }
        lemma_count_of_all(pre, x);
    }
}

/// Ones add up to their number.
proof fn lemma_total_ones(count: nat)
    ensures
        total(Seq::new(count, |c: int| 1nat)) == count,
    decreases count,
{
    if count > 0 {
        assert(Seq::new(count, |c: int| 1nat).drop_last() =~= Seq::new((count - 1) as nat, |c: int| 1nat));
        lemma_total_ones((count - 1) as nat);
    }
}

/// Without edges a vertex reaches only itself.
proof fn lemma_reaches_without_edges(es: Seq<(usize, usize)>, u: usize, v: usize)
    requires
        es.len() == 0,
        reaches(es, u, v),
    ensures
        u == v,
{
    let p = choose|p: Seq<usize>| #[trigger] is_walk(es, p) && p[0] == u && p.last() == v;
    if p.len() > 1 {
        assert(walk_step(es, p, 0));
    }
}

/// Vertices with the same id reach each other.
proof fn lemma_same_mutual(es: Seq<(usize, usize)>, ids: Seq<usize>, count: usize, u: usize, v: usize)
    requires
        labels_components(es, ids, count as nat),
        u < ids.len(),
        v < ids.len(),
        ids[u as int] == ids[v as int],
    ensures
        mutually_reachable(es, u, v),
{
    reveal(labels_components);
    assert(same_id(ids, u, v));
}

/// Without edges no two vertices share an id.
proof fn lemma_no_edges_distinct(es: Seq<(usize, usize)>, ids: Seq<usize>, count: usize)
    requires
        es.len() == 0,
        ids.len() <= usize::MAX,
        labels_components(es, ids, count as nat),
    ensures
        forall|u: int, v: int| 0 <= u < ids.len() && 0 <= v < ids.len() && ids[u] == ids[v] ==> u == v,
{
    assert forall|u: int, v: int| 0 <= u < ids.len() && 0 <= v < ids.len() && ids[u] == ids[v] implies u == v by {
        let uu = u as usize;
        let vv = v as usize;
        lemma_same_mutual(es, ids, count, uu, vv);
        lemma_reaches_without_edges(es, uu, vv);
    }
}

/// A component labelling is total, and two vertices share an id exactly
/// when each reaches the other.
pub proof fn lemma_labels_are_components(es: Seq<(usize, usize)>, ids: Seq<usize>, count: usize)
    requires
        labels_components(es, ids, count as nat),
    ensures
        forall|v: int| 0 <= v < ids.len() ==> 1 <= #[trigger] ids[v] <= count,
        forall|u: usize, v: usize|
            u < ids.len() && v < ids.len() ==> (ids[u as int] == ids[v as int] <==> #[trigger] mutually_reachable(
                es,
                u,
                v,
            )),
{
    reveal(labels_components);
    assert forall|u: usize, v: usize| u < ids.len() && v < ids.len() implies (ids[u as int] == ids[v as int]
        <==> #[trigger] mutually_reachable(es, u, v)) by {
        if ids[u as int] == ids[v as int] {
            assert(same_id(ids, u, v));
        }
    }
}

/// Two component labellings of the same graph induce the same partition,
/// whatever ids they use.
pub proof fn lemma_same_partition(es: Seq<(usize, usize)>, a: Seq<usize>, ca: usize, b: Seq<usize>, cb: usize)
    requires
        a.len() == b.len(),
        labels_components(es, a, ca as nat),
        labels_components(es, b, cb as nat),
    ensures
        forall|u: usize, v: usize|
            u < a.len() && v < a.len() ==> (#[trigger] a[u as int] == #[trigger] a[v as int] <==> b[u as int]
                == b[v as int]),
{
    lemma_labels_are_components(es, a, ca);
    lemma_labels_are_components(es, b, cb);
    assert forall|u: usize, v: usize| u < a.len() && v < a.len() implies (#[trigger] a[u as int]
        == #[trigger] a[v as int] <==> b[u as int] == b[v as int]) by {
        assert(a[u as int] == a[v as int] <==> mutually_reachable(es, u, v));
        assert(b[u as int] == b[v as int] <==> mutually_reachable(es, u, v));
    }
}

/// In a graph without edges every vertex is a component of its own: ids are
/// pairwise distinct, there are as many components as vertices, and each has
/// size one.
pub proof fn lemma_no_edges_singletons(es: Seq<(usize, usize)>, ids: Seq<usize>, count: usize)
    requires
        es.len() == 0,
        ids.len() <= usize::MAX,
        labels_components(es, ids, count as nat),
    ensures
        forall|u: int, v: int| 0 <= u < ids.len() && 0 <= v < ids.len() && ids[u] == ids[v] ==> u == v,
        count == ids.len(),
        forall|c: int| 0 <= c < count ==> #[trigger] size_table(ids, count as nat)[c] == 1,
{
    lemma_no_edges_distinct(es, ids, count);
    assert(forall|c: usize| 1 <= c <= count ==> #[trigger] ids.contains(c)) by {
        reveal(labels_components);
    }
    assert forall|c: int| 0 <= c < count implies #[trigger] size_table(ids, count as nat)[c] == 1 by {
        let x = (c + 1) as usize;
        assert(ids.contains(x));
        lemma_count_of_single(ids, x);
    }
    assert(ids_in_range(ids, count as nat)) by {
        reveal(labels_components);
    }
    lemma_sizes_sum(ids, count);
    assert(size_table(ids, count as nat) =~= Seq::new(count as nat, |c: int| 1nat));
    lemma_total_ones(count as nat);
}

/// Along the cycle, from `x` on every later vertex up to `n - 1` is reached.
proof fn lemma_cycle_forward(es: Seq<(usize, usize)>, n: usize, u: usize, x: usize, w: usize)
    requires
        is_full_cycle(es, n),
        reaches(es, u, x),
        x <= w < n,
    ensures
        reaches(es, u, w),
    decreases w - x,
{
    if x < w {
        assert(es[x as int] == (x, (x + 1) as usize));
        assert(es.contains((x, (x + 1) as usize)));
        lemma_reaches_step(es, u, x, (x + 1) as usize);
        lemma_cycle_forward(es, n, u, (x + 1) as usize, w);
    }
}

/// On the cycle every vertex reaches every vertex.
proof fn lemma_cycle_reaches(es: Seq<(usize, usize)>, n: usize, u: usize, v: usize)
    requires
        is_full_cycle(es, n),
        u < n,
        v < n,
    ensures
        reaches(es, u, v),
{
    lemma_reaches_self(es, u);
    if u <= v {
        lemma_cycle_forward(es, n, u, u, v);
    } else {
        let last = (n - 1) as usize;
        lemma_cycle_forward(es, n, u, u, last);
        assert(es[last as int] == (last, 0usize));
        assert(es.contains((last, 0usize)));
        lemma_reaches_step(es, u, last, 0);
        lemma_cycle_forward(es, n, u, 0, v);
    }
}

/// A single cycle through all `n` vertices is one component of size `n`.
pub proof fn lemma_cycle_one_component(es: Seq<(usize, usize)>, n: usize, ids: Seq<usize>, count: usize)
    requires
        is_full_cycle(es, n),
        ids.len() == n,
        labels_components(es, ids, count as nat),
    ensures
        count == 1,
        size_table(ids, count as nat) == seq![n as nat],
{
    assert forall|v: int| 0 <= v < n implies #[trigger] ids[v] == ids[0] by {
        lemma_cycle_reaches(es, n, 0, v as usize);
        lemma_cycle_reaches(es, n, v as usize, 0);
        assert(mutually_reachable(es, 0, v as usize));
        reveal(labels_components);
    }
    assert(1 <= ids[0] <= count && ids.contains(1) && ids.contains(count)) by {
        reveal(labels_components);
    }
    let a = choose|a: int| 0 <= a < ids.len() && ids[a] == 1;
    let b = choose|b: int| 0 <= b < ids.len() && ids[b] == count;
    assert(ids[a] == ids[0] && ids[b] == ids[0]);
    lemma_count_of_all(ids, 1);
    assert(size_table(ids, count as nat) =~= seq![n as nat]);
}

} // verus!
