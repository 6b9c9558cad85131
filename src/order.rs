use crate::graph::{
    adjacency, arcs_within, graph_arcs, graph_labels, lemma_lists_out, lemma_reaches_self, lemma_reaches_step,
    lemma_reaches_trans, lemma_walk_exit, is_walk, lists_out, reaches, vertex_count, walk_step, Digraph,
};
use vstd::prelude::*;

verus! {

/// A vertex not yet seen by the search.
pub const UNSEEN: u8 = 0;

/// A vertex on the search stack, whose edges are still being expanded.
pub const ACTIVE: u8 = 1;

/// A vertex all of whose edges have been expanded.
pub const DONE: u8 = 2;

/// The work left in a status table: two steps for an unseen vertex, one for
/// an active one.
pub open spec fn pending(s: Seq<u8>) -> nat
    decreases s.len(),
{
    if s.len() == 0 {
        0
    } else {
        pending(s.drop_last()) + (2 - s.last()) as nat
    }
}

/// Changing one status changes the work left by the difference.
pub proof fn lemma_pending_update(s: Seq<u8>, i: int, x: u8)
    requires
        0 <= i < s.len(),
        x <= 2,
        forall|k: int| 0 <= k < s.len() ==> s[k] <= 2,
    ensures
        pending(s.update(i, x)) + x == pending(s) + s[i],
    decreases s.len(),
{
    let t = s.update(i, x);
    if i == s.len() - 1 {
        assert(t.drop_last() =~= s.drop_last());
    } else {
        assert(t.drop_last() =~= s.drop_last().update(i, x));
        lemma_pending_update(s.drop_last(), i, x);
    }
}


/// Every vertex that reaches `order[j]` is either reachable back from it or
/// reaches some vertex placed before it. This is what a list in decreasing
/// finishing time of a depth-first search gives: a vertex never comes before
/// a vertex of a component that leads into its own.
pub open spec fn finish_order_ok(es: Seq<(usize, usize)>, order: Seq<usize>) -> bool {
    forall|j: int, x: usize|
        0 <= j < order.len() && #[trigger] reaches(es, x, order[j]) ==> reaches(es, order[j], x) || reaches_before(
            es,
            order,
            j,
            x,
        )
}

/// `x` reaches a vertex placed before position `j` of `order`.
#[verifier::opaque]
pub open spec fn reaches_before(es: Seq<(usize, usize)>, order: Seq<usize>, j: int, x: usize) -> bool {
    exists|i: int| 0 <= i < j && #[trigger] reaches(es, x, order[i])
}

/// Unfolds `reaches_before`.
pub proof fn lemma_reaches_before(es: Seq<(usize, usize)>, order: Seq<usize>, j: int, x: usize) -> (i: int)
    requires
        reaches_before(es, order, j, x),
    ensures
        0 <= i < j,
        reaches(es, x, order[i]),
{
    reveal(reaches_before);
    choose|i: int| 0 <= i < j && #[trigger] reaches(es, x, order[i])
}

/// `a` reaches `m`, which reaches `w`.
#[verifier::opaque]
spec fn through(es: Seq<(usize, usize)>, a: usize, m: usize, w: usize) -> bool {
    reaches(es, a, m) && reaches(es, m, w)
}

/// Unfolds `through`.
proof fn lemma_through(es: Seq<(usize, usize)>, a: usize, m: usize, w: usize)
    ensures
        through(es, a, m, w) <==> reaches(es, a, m) && reaches(es, m, w),
{
    reveal(through);
}

/// Finished vertices, and the scanned prefix of each active vertex's
/// out-list, lead to no unseen vertex.
#[verifier::opaque]
spec fn scanned_ok(adj: Seq<Vec<usize>>, status: Seq<u8>, stack: Seq<(usize, usize)>) -> bool {
    &&& forall|u: int, j: int|
        0 <= u < status.len() && status[u] == DONE && 0 <= j < adj[u]@.len() ==> status[#[trigger] adj[u]@[j] as int]
            != UNSEEN
    &&& forall|i: int, j: int|
        0 <= i < stack.len() && 0 <= j < stack[i].1 ==> status[#[trigger] adj[stack[i].0 as int]@[j] as int] != UNSEEN
}

/// The stack is a path of the search tree: each entry reaches the entries
/// above it and every vertex finished since it was pushed (its mark).
#[verifier::opaque]
spec fn tree_ok(es: Seq<(usize, usize)>, stack: Seq<(usize, usize)>, marks: Seq<int>, fin: Seq<usize>) -> bool {
    &&& marks.len() == stack.len()
    &&& forall|i: int, j: int| 0 <= i < j < marks.len() ==> #[trigger] marks[i] <= #[trigger] marks[j]
    &&& forall|i: int| 0 <= i < marks.len() ==> 0 <= #[trigger] marks[i] <= fin.len()
    &&& forall|i: int, j: int|
        0 <= i <= j < stack.len() ==> #[trigger] reaches(es, stack[i].0, #[trigger] stack[j].0)
    &&& forall|i: int, k: int|
        0 <= i < stack.len() && marks[i] <= k < fin.len() ==> #[trigger] reaches(es, stack[i].0, #[trigger] fin[k])
}

/// From a finished vertex, every unfinished vertex it reaches is reached
/// through a stack entry pushed before it finished.
#[verifier::opaque]
spec fn frontier_ok(
    es: Seq<(usize, usize)>,
    status: Seq<u8>,
    stack: Seq<(usize, usize)>,
    marks: Seq<int>,
    fin: Seq<usize>,
) -> bool {
    forall|k: int, w: usize|
        0 <= k < fin.len() && w < status.len() && status[w as int] != DONE && #[trigger] reaches(es, fin[k], w)
            ==> exists|i: int| 0 <= i < stack.len() && marks[i] <= k && #[trigger] through(es, fin[k], stack[i].0, w)
}

/// `y` is unfinished, or finished after position `b`.
spec fn later(status: Seq<u8>, fin: Seq<usize>, b: int, y: usize) -> bool {
    (y < status.len() && status[y as int] != DONE) || exists|c: int| b < c < fin.len() && #[trigger] fin[c] == y
}

/// Of two finished vertices, an earlier one that reaches a later one is
/// reachable back from it, or reaches a vertex that finishes later still.
#[verifier::opaque]
spec fn kos_ok(es: Seq<(usize, usize)>, status: Seq<u8>, fin: Seq<usize>) -> bool {
    forall|a: int, b: int|
        0 <= a < b < fin.len() && #[trigger] reaches(es, fin[a], fin[b]) ==> reaches(es, fin[b], fin[a]) || escapes(
            es,
            status,
            fin,
            a,
            b,
        )
}

/// `fin[a]` reaches a vertex that is unfinished or finished after `fin[b]`.
#[verifier::opaque]
spec fn escapes(es: Seq<(usize, usize)>, status: Seq<u8>, fin: Seq<usize>, a: int, b: int) -> bool {
    exists|y: usize| #[trigger] reaches(es, fin[a], y) && later(status, fin, b, y)
}

/// Unfolds `escapes`.
proof fn lemma_escapes_elim(es: Seq<(usize, usize)>, status: Seq<u8>, fin: Seq<usize>, a: int, b: int) -> (y: usize)
    requires
        escapes(es, status, fin, a, b),
    ensures
        reaches(es, fin[a], y),
        later(status, fin, b, y),
{
    reveal(escapes);
    choose|y: usize| #[trigger] reaches(es, fin[a], y) && later(status, fin, b, y)
}

/// Folds `escapes`.
proof fn lemma_escapes_intro(es: Seq<(usize, usize)>, status: Seq<u8>, fin: Seq<usize>, a: int, b: int, y: usize)
    requires
        reaches(es, fin[a], y),
        later(status, fin, b, y),
    ensures
        escapes(es, status, fin, a, b),
{
    reveal(escapes);
}

/// The bookkeeping of the search that the lemmas below share.
spec fn search_ok(
    es: Seq<(usize, usize)>,
    adj: Seq<Vec<usize>>,
    status: Seq<u8>,
    stack: Seq<(usize, usize)>,
    fin: Seq<usize>,
) -> bool {
    let n = status.len();
    &&& adj.len() == n
    &&& arcs_within(es, n)
    &&& forall|x: int| 0 <= x < n ==> lists_out(es, x as usize, (#[trigger] adj[x])@)
    &&& forall|x: int, j: int| 0 <= x < n && 0 <= j < adj[x]@.len() ==> #[trigger] adj[x]@[j] < n
    &&& forall|x: int| 0 <= x < n ==> #[trigger] status[x] <= 2
    &&& forall|i: int|
        0 <= i < stack.len() ==> (#[trigger] stack[i]).0 < n && status[stack[i].0 as int] == ACTIVE && stack[i].1
            <= adj[stack[i].0 as int]@.len()
    &&& forall|i: int, j: int| 0 <= i < j < stack.len() ==> (#[trigger] stack[i]).0 != (#[trigger] stack[j]).0
    &&& forall|v: usize| v < n && status[v as int] == ACTIVE ==> exists|i: int| 0 <= i < stack.len() && (#[trigger] stack[i]).0 == v
    &&& forall|k: int| 0 <= k < fin.len() ==> #[trigger] fin[k] < n && status[fin[k] as int] == DONE
    &&& forall|v: usize| v < n && status[v as int] == DONE ==> fin.contains(v)
}

/// When the top entry has expanded all its edges, anything unfinished that
/// it reaches is reached through an entry below it.
proof fn lemma_exit_to_stack(
    es: Seq<(usize, usize)>,
    adj: Seq<Vec<usize>>,
    status: Seq<u8>,
    stack: Seq<(usize, usize)>,
    fin: Seq<usize>,
    w: usize,
) -> (i: int)
    requires
        search_ok(es, adj, status, stack, fin),
        scanned_ok(adj, status, stack),
        stack.len() > 0,
        forall|jj: int|
            stack[stack.len() - 1].1 <= jj < adj[stack[stack.len() - 1].0 as int]@.len() ==> status[#[trigger] adj[stack[
                stack.len() - 1].0 as int]@[jj] as int] != UNSEEN,
        w < status.len(),
        status[w as int] != DONE,
        w != stack[stack.len() - 1].0,
        reaches(es, stack[stack.len() - 1].0, w),
    ensures
        0 <= i < stack.len() - 1,
        reaches(es, stack[stack.len() - 1].0, stack[i].0),
        reaches(es, stack[i].0, w),
{
    reveal(scanned_ok);
    let n = status.len();
    let t = stack.len() - 1;
    let v = stack[t].0;
    let inside = |u: usize| u < n && (status[u as int] == DONE || u == v);
    let p = choose|p: Seq<usize>| #[trigger] is_walk(es, p) && p[0] == v && p.last() == w;
    assert(stack[t].0 < n);
    let (a, b) = lemma_walk_exit(es, p, inside);
    let k = choose|k: int| 0 <= k < es.len() && es[k] == (a, b);
    assert(es[k].1 < n);
    assert(lists_out(es, a, adj[a as int]@));
    lemma_lists_out(es, a, adj[a as int]@, b);
    let jj = choose|jj: int| 0 <= jj < adj[a as int]@.len() && adj[a as int]@[jj] == b;
    if a == v {
        if jj < stack[t].1 {
            assert(status[adj[stack[t].0 as int]@[jj] as int] != UNSEEN);
        } else {
            assert(status[adj[stack[t].0 as int]@[jj] as int] != UNSEEN);
        }
    } else {
        assert(status[adj[a as int]@[jj] as int] != UNSEEN);
    }
    assert(status[b as int] == ACTIVE);
    let i = choose|i: int| 0 <= i < stack.len() && (#[trigger] stack[i]).0 == b;
    assert(i != t);
    lemma_reaches_step(es, v, a, b);
    i
}

/// Starting a search at an unseen vertex keeps the invariants.
proof fn lemma_root_step(
    es: Seq<(usize, usize)>,
    adj: Seq<Vec<usize>>,
    status: Seq<u8>,
    stack: Seq<(usize, usize)>,
    marks: Seq<int>,
    fin: Seq<usize>,
    s: usize,
)
    requires
        search_ok(es, adj, status, stack, fin),
        stack.len() == 0,
        s < status.len(),
        status[s as int] == UNSEEN,
        scanned_ok(adj, status, stack),
        tree_ok(es, stack, marks, fin),
        frontier_ok(es, status, stack, marks, fin),
        kos_ok(es, status, fin),
    ensures
        scanned_ok(adj, status.update(s as int, ACTIVE), seq![(s, 0usize)]),
        tree_ok(es, seq![(s, 0usize)], seq![fin.len() as int], fin),
        frontier_ok(es, status.update(s as int, ACTIVE), seq![(s, 0usize)], seq![fin.len() as int], fin),
        kos_ok(es, status.update(s as int, ACTIVE), fin),
{
    reveal(scanned_ok);
    reveal(tree_ok);
    reveal(frontier_ok);
    reveal(kos_ok);
    let st = status.update(s as int, ACTIVE);
    let sk = seq![(s, 0usize)];
    let mk = seq![fin.len() as int];
    lemma_reaches_self(es, s);
    assert forall|u: int, j: int|
        0 <= u < st.len() && st[u] == DONE && 0 <= j < adj[u]@.len() implies st[#[trigger] adj[u]@[j] as int]
        != UNSEEN by {
        assert(status[adj[u]@[j] as int] != UNSEEN);
    }
    assert forall|k: int, w: usize|
        0 <= k < fin.len() && w < st.len() && st[w as int] != DONE && #[trigger] reaches(es, fin[k], w) implies exists|i: int|
        0 <= i < sk.len() && mk[i] <= k && #[trigger] through(es, fin[k], sk[i].0, w) by {
        assert(status[w as int] != DONE);
    }
    assert forall|a: int, b: int|
        0 <= a < b < fin.len() && #[trigger] reaches(es, fin[a], fin[b]) implies reaches(es, fin[b], fin[a]) || escapes(
        es,
        st,
        fin,
        a,
        b,
    ) by {
        if !reaches(es, fin[b], fin[a]) {
            let y = lemma_escapes_elim(es, status, fin, a, b);
            lemma_escapes_intro(es, st, fin, a, b, y);
        }
    }
}

/// Pushing the next unseen neighbour of the top entry keeps the invariants.
#[verifier::rlimit(60)]
proof fn lemma_visit_step(
    es: Seq<(usize, usize)>,
    adj: Seq<Vec<usize>>,
    status: Seq<u8>,
    stack: Seq<(usize, usize)>,
    marks: Seq<int>,
    fin: Seq<usize>,
    j: usize,
)
    requires
        search_ok(es, adj, status, stack, fin),
        stack.len() > 0,
        stack[stack.len() - 1].1 <= j < adj[stack[stack.len() - 1].0 as int]@.len(),
        forall|jj: int|
            stack[stack.len() - 1].1 <= jj < j ==> status[#[trigger] adj[stack[stack.len() - 1].0 as int]@[jj] as int]
                != UNSEEN,
        status[adj[stack[stack.len() - 1].0 as int]@[j as int] as int] == UNSEEN,
        scanned_ok(adj, status, stack),
        tree_ok(es, stack, marks, fin),
        frontier_ok(es, status, stack, marks, fin),
        kos_ok(es, status, fin),
    ensures
        ({
            let t = stack.len() - 1;
            let v = stack[t].0;
            let w = adj[v as int]@[j as int];
            let st = status.update(w as int, ACTIVE);
            let sk = stack.update(t, (v, (j + 1) as usize)).push((w, 0usize));
            let mk = marks.push(fin.len() as int);
            &&& scanned_ok(adj, st, sk)
            &&& tree_ok(es, sk, mk, fin)
            &&& frontier_ok(es, st, sk, mk, fin)
            &&& kos_ok(es, st, fin)
        }),
{
    reveal(scanned_ok);
    reveal(tree_ok);
    reveal(frontier_ok);
    reveal(kos_ok);
    let n = status.len();
    let t = stack.len() - 1;
    let v = stack[t].0;
    assert(v < n);
    let w = adj[v as int]@[j as int];
    let st = status.update(w as int, ACTIVE);
    let sk = stack.update(t, (v, (j + 1) as usize)).push((w, 0usize));
    let mk = marks.push(fin.len() as int);
    assert(lists_out(es, v, adj[v as int]@));
    assert(adj[v as int]@.contains(w));
    lemma_lists_out(es, v, adj[v as int]@, w);
    let q = choose|q: int| 0 <= q < es.len() && es[q] == (v, w);
    assert(es[q].1 < n);
    lemma_reaches_self(es, w);
    assert forall|u: int, jj: int|
        0 <= u < st.len() && st[u] == DONE && 0 <= jj < adj[u]@.len() implies st[#[trigger] adj[u]@[jj] as int]
        != UNSEEN by {
        assert(status[adj[u]@[jj] as int] != UNSEEN);
    }
    assert forall|i: int, jj: int|
        0 <= i < sk.len() && 0 <= jj < sk[i].1 implies st[#[trigger] adj[sk[i].0 as int]@[jj] as int] != UNSEEN by {
        if i < t {
            assert(sk[i] == stack[i]);
            assert(status[adj[stack[i].0 as int]@[jj] as int] != UNSEEN);
        } else if i == t {
            if jj < stack[t].1 {
                assert(status[adj[stack[t].0 as int]@[jj] as int] != UNSEEN);
            } else if jj < j {
                assert(status[adj[stack[t].0 as int]@[jj] as int] != UNSEEN);
            }
        }
    }
    assert(scanned_ok(adj, st, sk));
    assert forall|i: int, jj: int| 0 <= i <= jj < sk.len() implies #[trigger] reaches(es, sk[i].0, #[trigger] sk[jj].0) by {
        if jj <= t {
            assert(reaches(es, stack[i].0, stack[jj].0));
        } else if i <= t {
            assert(reaches(es, stack[i].0, stack[t].0));
            lemma_reaches_step(es, stack[i].0, v, w);
        }
    }
    assert forall|i: int, k: int| 0 <= i < sk.len() && mk[i] <= k < fin.len() implies #[trigger] reaches(
        es,
        sk[i].0,
        #[trigger] fin[k],
    ) by {
        assert(i <= t);
        assert(reaches(es, stack[i].0, fin[k]));
    }
    assert forall|i: int, jj: int| 0 <= i < jj < mk.len() implies #[trigger] mk[i] <= #[trigger] mk[jj] by {
        if jj < marks.len() {
            assert(marks[i] <= marks[jj]);
        } else {
            assert(0 <= marks[i] <= fin.len());
        }
    }
    assert(tree_ok(es, sk, mk, fin));
    assert forall|k: int, x: usize|
        0 <= k < fin.len() && x < st.len() && st[x as int] != DONE && #[trigger] reaches(es, fin[k], x) implies exists|i: int|
        0 <= i < sk.len() && mk[i] <= k && #[trigger] through(es, fin[k], sk[i].0, x) by {
        assert(status[x as int] != DONE);
        let i = choose|i: int| 0 <= i < stack.len() && marks[i] <= k && #[trigger] through(es, fin[k], stack[i].0, x);
        assert(sk[i].0 == stack[i].0);
    }
    assert forall|a: int, b: int|
        0 <= a < b < fin.len() && #[trigger] reaches(es, fin[a], fin[b]) implies reaches(es, fin[b], fin[a]) || escapes(
        es,
        st,
        fin,
        a,
        b,
    ) by {
        if !reaches(es, fin[b], fin[a]) {
            let y = lemma_escapes_elim(es, status, fin, a, b);
            lemma_escapes_intro(es, st, fin, a, b, y);
        }
    }
}

/// Finishing the top entry keeps `scanned_ok`.
proof fn lemma_finish_scanned(
    es: Seq<(usize, usize)>,
    adj: Seq<Vec<usize>>,
    status: Seq<u8>,
    stack: Seq<(usize, usize)>,
    marks: Seq<int>,
    fin: Seq<usize>,
)
    requires
        search_ok(es, adj, status, stack, fin),
        stack.len() > 0,
        forall|jj: int|
            stack[stack.len() - 1].1 <= jj < adj[stack[stack.len() - 1].0 as int]@.len() ==> status[#[trigger] adj[stack[
                stack.len() - 1].0 as int]@[jj] as int] != UNSEEN,
        scanned_ok(adj, status, stack),
        tree_ok(es, stack, marks, fin),
        frontier_ok(es, status, stack, marks, fin),
        kos_ok(es, status, fin),
    ensures
        scanned_ok(adj, status.update(stack[stack.len() - 1].0 as int, DONE), stack.drop_last()),
{
    let n = status.len();
    let t = stack.len() - 1;
    let v = stack[t].0;
    let st = status.update(v as int, DONE);
    let sk = stack.drop_last();
    let mk = marks.drop_last();
    let f2 = fin.push(v);
    let p = fin.len() as int;
    assert(v < n && status[v as int] == ACTIVE);
    assert(scanned_ok(adj, st, sk)) by {
        reveal(scanned_ok);
        assert forall|u: int, j: int|
            0 <= u < st.len() && st[u] == DONE && 0 <= j < adj[u]@.len() implies st[#[trigger] adj[u]@[j] as int]
            != UNSEEN by {
            if u == v {
                if j < stack[t].1 {
                    assert(status[adj[stack[t].0 as int]@[j] as int] != UNSEEN);
                } else {
                    assert(status[adj[stack[t].0 as int]@[j] as int] != UNSEEN);
                }
            } else {
                assert(status[adj[u]@[j] as int] != UNSEEN);
            }
        }
        assert forall|i: int, j: int| 0 <= i < sk.len() && 0 <= j < sk[i].1 implies st[#[trigger] adj[sk[i].0 as int]@[j] as int]
            != UNSEEN by {
            assert(sk[i] == stack[i]);
            assert(status[adj[stack[i].0 as int]@[j] as int] != UNSEEN);
        }
    }
}

/// Finishing the top entry keeps `tree_ok`.
proof fn lemma_finish_tree(
    es: Seq<(usize, usize)>,
    adj: Seq<Vec<usize>>,
    status: Seq<u8>,
    stack: Seq<(usize, usize)>,
    marks: Seq<int>,
    fin: Seq<usize>,
)
    requires
        search_ok(es, adj, status, stack, fin),
        stack.len() > 0,
        forall|jj: int|
            stack[stack.len() - 1].1 <= jj < adj[stack[stack.len() - 1].0 as int]@.len() ==> status[#[trigger] adj[stack[
                stack.len() - 1].0 as int]@[jj] as int] != UNSEEN,
        scanned_ok(adj, status, stack),
        tree_ok(es, stack, marks, fin),
        frontier_ok(es, status, stack, marks, fin),
        kos_ok(es, status, fin),
    ensures
        tree_ok(es, stack.drop_last(), marks.drop_last(), fin.push(stack[stack.len() - 1].0)),
        marks.len() == stack.len(),
        marks[stack.len() - 1] <= fin.len(),
        forall|i: int| 0 <= i < stack.len() - 1 ==> #[trigger] marks[i] <= marks[stack.len() - 1],
{
    let n = status.len();
    let t = stack.len() - 1;
    let v = stack[t].0;
    let st = status.update(v as int, DONE);
    let sk = stack.drop_last();
    let mk = marks.drop_last();
    let f2 = fin.push(v);
    let p = fin.len() as int;
    assert(v < n && status[v as int] == ACTIVE);
    assert(tree_ok(es, sk, mk, f2)) by {
        reveal(tree_ok);
        assert forall|i: int, j: int| 0 <= i <= j < sk.len() implies #[trigger] reaches(es, sk[i].0, #[trigger] sk[j].0) by {
            assert(reaches(es, stack[i].0, stack[j].0));
        }
        assert forall|i: int, k: int| 0 <= i < sk.len() && mk[i] <= k < f2.len() implies #[trigger] reaches(
            es,
            sk[i].0,
            #[trigger] f2[k],
        ) by {
            if k < p {
                assert(reaches(es, stack[i].0, fin[k]));
            } else {
                assert(reaches(es, stack[i].0, stack[t].0));
            }
        }
        assert forall|i: int, j: int| 0 <= i < j < mk.len() implies #[trigger] mk[i] <= #[trigger] mk[j] by {
            assert(marks[i] <= marks[j]);
        }
        assert forall|i: int| 0 <= i < mk.len() implies 0 <= #[trigger] mk[i] <= f2.len() by {
            assert(0 <= marks[i] <= fin.len());
        }
    }
    assert(marks.len() == stack.len() && marks[t] <= fin.len()) by {
        reveal(tree_ok);
    }
    assert(forall|i: int| 0 <= i < t ==> #[trigger] marks[i] <= marks[t]) by {
        reveal(tree_ok);
        assert forall|i: int| 0 <= i < t implies #[trigger] marks[i] <= marks[t] by {
            assert(marks[i] <= marks[t]);
        }
    }
}

/// Finishing the top entry keeps `frontier_ok`.
#[verifier::rlimit(60)]
proof fn lemma_finish_frontier(
    es: Seq<(usize, usize)>,
    adj: Seq<Vec<usize>>,
    status: Seq<u8>,
    stack: Seq<(usize, usize)>,
    marks: Seq<int>,
    fin: Seq<usize>,
)
    requires
        search_ok(es, adj, status, stack, fin),
        stack.len() > 0,
        forall|jj: int|
            stack[stack.len() - 1].1 <= jj < adj[stack[stack.len() - 1].0 as int]@.len() ==> status[#[trigger] adj[stack[
                stack.len() - 1].0 as int]@[jj] as int] != UNSEEN,
        scanned_ok(adj, status, stack),
        tree_ok(es, stack, marks, fin),
        frontier_ok(es, status, stack, marks, fin),
        kos_ok(es, status, fin),
    ensures
        frontier_ok(
            es,
            status.update(stack[stack.len() - 1].0 as int, DONE),
            stack.drop_last(),
            marks.drop_last(),
            fin.push(stack[stack.len() - 1].0),
        ),
{
    let n = status.len();
    let t = stack.len() - 1;
    let v = stack[t].0;
    let st = status.update(v as int, DONE);
    let sk = stack.drop_last();
    let mk = marks.drop_last();
    let f2 = fin.push(v);
    let p = fin.len() as int;
    assert(v < n && status[v as int] == ACTIVE);
    lemma_finish_tree(es, adj, status, stack, marks, fin);
    assert(frontier_ok(es, st, sk, mk, f2)) by {
        reveal(frontier_ok);
        assert forall|k: int, w: usize|
            0 <= k < f2.len() && w < st.len() && st[w as int] != DONE && #[trigger] reaches(es, f2[k], w) implies exists|
            i: int,
        | 0 <= i < sk.len() && mk[i] <= k && #[trigger] through(es, f2[k], sk[i].0, w) by {
            assert(w != v);
            if k == p {
                let i = lemma_exit_to_stack(es, adj, status, stack, fin, w);
                assert(marks[i] <= marks[t]);
                assert(mk[i] == marks[i]);
                assert(sk[i] == stack[i]);
                lemma_through(es, f2[k], sk[i].0, w);
            } else {
                assert(f2[k] == fin[k]);
                assert(status[w as int] != DONE);
                assert(reaches(es, fin[k], w));
                let i = choose|i: int| 0 <= i < stack.len() && marks[i] <= k && #[trigger] through(es, fin[k], stack[i].0, w);
                lemma_through(es, fin[k], stack[i].0, w);
                if i == t {
                    let i2 = lemma_exit_to_stack(es, adj, status, stack, fin, w);
                    lemma_reaches_trans(es, fin[k], v, stack[i2].0);
                    assert(sk[i2] == stack[i2]);
                    assert(marks[i2] <= marks[t]);
                    assert(mk[i2] == marks[i2]);
                    assert(mk[i2] <= k);
                    lemma_through(es, f2[k], sk[i2].0, w);
                } else {
                    assert(sk[i] == stack[i]);
                    assert(mk[i] == marks[i]);
                    lemma_through(es, f2[k], sk[i].0, w);
                }
            }
        }
    }
}

/// Finishing the top entry keeps `kos_ok`.
#[verifier::rlimit(60)]
proof fn lemma_finish_kos(
    es: Seq<(usize, usize)>,
    adj: Seq<Vec<usize>>,
    status: Seq<u8>,
    stack: Seq<(usize, usize)>,
    marks: Seq<int>,
    fin: Seq<usize>,
)
    requires
        search_ok(es, adj, status, stack, fin),
        stack.len() > 0,
        forall|jj: int|
            stack[stack.len() - 1].1 <= jj < adj[stack[stack.len() - 1].0 as int]@.len() ==> status[#[trigger] adj[stack[
                stack.len() - 1].0 as int]@[jj] as int] != UNSEEN,
        scanned_ok(adj, status, stack),
        tree_ok(es, stack, marks, fin),
        frontier_ok(es, status, stack, marks, fin),
        kos_ok(es, status, fin),
    ensures
        kos_ok(es, status.update(stack[stack.len() - 1].0 as int, DONE), fin.push(stack[stack.len() - 1].0)),
{
    let n = status.len();
    let t = stack.len() - 1;
    let v = stack[t].0;
    let st = status.update(v as int, DONE);
    let sk = stack.drop_last();
    let mk = marks.drop_last();
    let f2 = fin.push(v);
    let p = fin.len() as int;
    assert(v < n && status[v as int] == ACTIVE);
    assert(kos_ok(es, st, f2)) by {
        reveal(kos_ok);
        assert forall|a: int, b: int|
            0 <= a < b < f2.len() && #[trigger] reaches(es, f2[a], f2[b]) implies reaches(es, f2[b], f2[a]) || escapes(
            es,
            st,
            f2,
            a,
            b,
        ) by {
            assert(f2[a] == fin[a]);
            if b < p {
                assert(f2[b] == fin[b]);
                if !reaches(es, fin[b], fin[a]) {
                    let y = lemma_escapes_elim(es, status, fin, a, b);
                    if y < status.len() && status[y as int] != DONE {
                        if y == v {
                            assert(f2[p] == y);
                        }
                    } else {
                        let c = choose|c: int| b < c < fin.len() && #[trigger] fin[c] == y;
                        assert(f2[c] == y);
                    }
                    assert(later(st, f2, b, y));
                    lemma_escapes_intro(es, st, f2, a, b, y);
                }
            } else {
                assert(f2[b] == v);
                reveal(frontier_ok);
                assert(fin[a] < n && status[fin[a] as int] == DONE);
                assert(reaches(es, fin[a], v));
                let i = choose|i: int| 0 <= i < stack.len() && marks[i] <= a && #[trigger] through(es, fin[a], stack[i].0, v);
                lemma_through(es, fin[a], stack[i].0, v);
                if i == t {
                    reveal(tree_ok);
                    assert(reaches(es, stack[t].0, fin[a]));
                } else {
                    let y = stack[i].0;
                    assert(st[y as int] == ACTIVE);
                    assert(later(st, f2, b, y));
                    lemma_escapes_intro(es, st, f2, a, b, y);
                }
            }
        }
    }
}

/// Finishing the top entry keeps the invariants.
proof fn lemma_finish_step(
    es: Seq<(usize, usize)>,
    adj: Seq<Vec<usize>>,
    status: Seq<u8>,
    stack: Seq<(usize, usize)>,
    marks: Seq<int>,
    fin: Seq<usize>,
)
    requires
        search_ok(es, adj, status, stack, fin),
        stack.len() > 0,
        forall|jj: int|
            stack[stack.len() - 1].1 <= jj < adj[stack[stack.len() - 1].0 as int]@.len() ==> status[#[trigger] adj[stack[
                stack.len() - 1].0 as int]@[jj] as int] != UNSEEN,
        scanned_ok(adj, status, stack),
        tree_ok(es, stack, marks, fin),
        frontier_ok(es, status, stack, marks, fin),
        kos_ok(es, status, fin),
    ensures
        ({
            let v = stack[stack.len() - 1].0;
            let st = status.update(v as int, DONE);
            &&& scanned_ok(adj, st, stack.drop_last())
            &&& tree_ok(es, stack.drop_last(), marks.drop_last(), fin.push(v))
            &&& frontier_ok(es, st, stack.drop_last(), marks.drop_last(), fin.push(v))
            &&& kos_ok(es, st, fin.push(v))
        }),
{
    lemma_finish_scanned(es, adj, status, stack, marks, fin);
    lemma_finish_tree(es, adj, status, stack, marks, fin);
    lemma_finish_frontier(es, adj, status, stack, marks, fin);
    lemma_finish_kos(es, adj, status, stack, marks, fin);
}

/// A vertex that reaches another vertex has an edge, so it is a vertex.
proof fn lemma_leaves_vertex(es: Seq<(usize, usize)>, n: nat, x: usize, z: usize)
    requires
        arcs_within(es, n),
        reaches(es, x, z),
        x != z,
    ensures
        x < n,
{
    let p = choose|p: Seq<usize>| #[trigger] is_walk(es, p) && p[0] == x && p.last() == z;
    assert(walk_step(es, p, 0));
    let k = choose|k: int| 0 <= k < es.len() && es[k] == (x, p[1]);
    assert(es[k].0 < n);
}

/// Once every vertex has finished, the finishing list read backwards has
/// the finishing-order property.
proof fn lemma_final_order(
    es: Seq<(usize, usize)>,
    n: nat,
    status: Seq<u8>,
    fin: Seq<usize>,
    order: Seq<usize>,
)
    requires
        arcs_within(es, n),
        status.len() == n,
        forall|v: int| 0 <= v < n ==> #[trigger] status[v] == DONE,
        kos_ok(es, status, fin),
        fin.no_duplicates(),
        forall|v: usize| v < n ==> fin.contains(v),
        order.len() == fin.len(),
        forall|i: int| 0 <= i < order.len() ==> #[trigger] order[i] == fin[fin.len() - 1 - i],
    ensures
        finish_order_ok(es, order),
{
    let m = fin.len() as int;
    assert forall|j: int, x: usize|
        0 <= j < order.len() && #[trigger] reaches(es, x, order[j]) implies reaches(es, order[j], x) || reaches_before(
        es,
        order,
        j,
        x,
    ) by {
        let b = m - 1 - j;
        assert(order[j] == fin[b]);
        if x == order[j] {
            lemma_reaches_self(es, x);
        } else {
            lemma_leaves_vertex(es, n, x, order[j]);
            assert(fin.contains(x));
            let a = choose|a: int| 0 <= a < fin.len() && fin[a] == x;
            assert(a != b);
            if a > b {
                let i = m - 1 - a;
                assert(order[i] == x);
                lemma_reaches_self(es, x);
                reveal(reaches_before);
                assert(reaches(es, x, order[i]));
            } else if !reaches(es, fin[b], fin[a]) {
                reveal(kos_ok);
                assert(reaches(es, fin[a], fin[b]));
                let y = lemma_escapes_elim(es, status, fin, a, b);
                if y < status.len() && status[y as int] != DONE {
                    assert(false);
                } else {
                    let c = choose|c: int| b < c < fin.len() && #[trigger] fin[c] == y;
                    let i = m - 1 - c;
                    assert(order[i] == y);
                    reveal(reaches_before);
                    assert(reaches(es, x, order[i]));
                }
            }
        }
    }
}

/// `order` lists each of the vertices `0..n` exactly once.
pub open spec fn is_vertex_permutation(order: Seq<usize>, n: nat) -> bool {
    &&& forall|i: int| 0 <= i < order.len() ==> #[trigger] order[i] < n
    &&& forall|v: usize| v < n ==> order.contains(v)
    &&& order.no_duplicates()
}

/// Vertices in decreasing finishing time of a depth-first search that starts
/// from each unseen vertex in ascending index order and expands edges in the
/// store's out-list order. The search keeps an explicit stack of
/// (vertex, next edge position) pairs, so a vertex finishes only once all of
/// its edges have been expanded.
pub fn topo_sort(g: &Digraph) -> (order: Vec<usize>)
    ensures
        is_vertex_permutation(order@, graph_labels(*g).len()),
        finish_order_ok(graph_arcs(*g), order@),
{
    let ghost es = graph_arcs(*g);
    let n = vertex_count(g);
    let adj = adjacency(g);
    let mut status: Vec<u8> = Vec::new();
    while status.len() < n
        invariant
            status.len() <= n,
            forall|k: int| 0 <= k < status.len() ==> status[k] == UNSEEN,
        decreases n - status.len(),
    {
        status.push(UNSEEN);
    }
    let mut finished: Vec<usize> = Vec::new();
    let mut stack: Vec<(usize, usize)> = Vec::new();
    let ghost mut marks: Seq<int> = Seq::empty();
    proof {
        reveal(scanned_ok);
        reveal(tree_ok);
        reveal(frontier_ok);
        reveal(kos_ok);
    }
    let mut s: usize = 0;
    while s < n
        invariant
            s <= n,
            es == graph_arcs(*g),
            arcs_within(es, n as nat),
            forall|x: int| 0 <= x < n ==> lists_out(es, x as usize, (#[trigger] adj[x])@),
            scanned_ok(adj@, status@, stack@),
            tree_ok(es, stack@, marks, finished@),
            frontier_ok(es, status@, stack@, marks, finished@),
            kos_ok(es, status@, finished@),
            n == adj.len() == status.len(),
            forall|v: int, j: int| 0 <= v < n && 0 <= j < adj[v].len() ==> #[trigger] adj[v][j] < n,
            stack.len() == 0,
            forall|v: int| 0 <= v < n ==> status[v] == UNSEEN || status[v] == DONE,
            forall|v: int| 0 <= v < s ==> status[v] == DONE,
            forall|k: int| 0 <= k < finished.len() ==> #[trigger] finished[k] < n && status[finished[k] as int] == DONE,
            forall|v: usize| v < n && status[v as int] == DONE ==> finished@.contains(v),
            finished@.no_duplicates(),
        decreases n - s,
    {
        if status[s] == UNSEEN {
            proof {
                assert(search_ok(es, adj@, status@, stack@, finished@));
                lemma_root_step(es, adj@, status@, stack@, marks, finished@, s);
            }
            status.set(s, ACTIVE);
            stack.push((s, 0));
            proof {
                marks = seq![finished.len() as int];
                assert(stack@ =~= seq![(s, 0usize)]);
            }
            assert forall|u: usize| u < n && status[u as int] == ACTIVE implies exists|i: int|
                0 <= i < stack.len() && (#[trigger] stack[i]).0 == u by {
                assert(stack[0].0 == u);
            }
            while stack.len() > 0
                invariant
                    n == adj.len() == status.len(),
                    s < n,
                    status[s as int] != UNSEEN,
                    forall|v: int, j: int| 0 <= v < n && 0 <= j < adj[v].len() ==> #[trigger] adj[v][j] < n,
                    forall|v: int| 0 <= v < n ==> status[v] <= 2,
                    forall|v: int| 0 <= v < s ==> status[v] == DONE,
                    forall|i: int| 0 <= i < stack.len() ==> (#[trigger] stack[i]).0 < n && status[stack[i].0 as int] == ACTIVE
                        && stack[i].1 <= adj[stack[i].0 as int].len(),
                    forall|i: int, j: int| 0 <= i < j < stack.len() ==> (#[trigger] stack[i]).0 != (#[trigger] stack[j]).0,
                    forall|v: usize| v < n && status[v as int] == ACTIVE ==> exists|i: int| 0 <= i < stack.len() && (#[trigger] stack[i]).0 == v,
                    forall|k: int| 0 <= k < finished.len() ==> #[trigger] finished[k] < n && status[finished[k] as int] == DONE,
                    forall|v: usize| v < n && status[v as int] == DONE ==> finished@.contains(v),
                    finished@.no_duplicates(),
                    es == graph_arcs(*g),
                    arcs_within(es, n as nat),
                    forall|x: int| 0 <= x < n ==> lists_out(es, x as usize, (#[trigger] adj[x])@),
                    scanned_ok(adj@, status@, stack@),
                    tree_ok(es, stack@, marks, finished@),
                    frontier_ok(es, status@, stack@, marks, finished@),
                    kos_ok(es, status@, finished@),
                decreases pending(status@),
            {
                let top = stack.len() - 1;
                let (v, pos) = stack[top];
                let nbrs = &adj[v];
                let mut j: usize = pos;
                while j < nbrs.len() && status[nbrs[j]] != UNSEEN
                    invariant
                        pos <= j <= nbrs.len(),
                        n == status.len(),
                        forall|k: int| 0 <= k < nbrs.len() ==> #[trigger] nbrs[k] < n,
                        forall|jj: int| pos <= jj < j ==> status[#[trigger] nbrs@[jj] as int] != UNSEEN,
                    decreases nbrs.len() - j,
                {
                    j += 1;
                }
                if j < nbrs.len() {
                    let w = nbrs[j];
                    proof {
                        lemma_pending_update(status@, w as int, ACTIVE);
                    }
                    let ghost st0 = stack@;
                    let ghost status0 = status@;
                    proof {
                        assert(search_ok(es, adj@, status@, stack@, finished@));
                        assert(nbrs@ == adj@[v as int]@);
                        lemma_visit_step(es, adj@, status@, stack@, marks, finished@, j);
                    }
                    stack.set(top, (v, j + 1));
                    status.set(w, ACTIVE);
                    stack.push((w, 0));
                    proof {
                        marks = marks.push(finished.len() as int);
                        assert(stack@ =~= st0.update(top as int, (v, (j + 1) as usize)).push((w, 0usize)));
                        assert(status@ =~= status0.update(w as int, ACTIVE));
                    }
                    assert forall|u: usize| u < n && status[u as int] == ACTIVE implies exists|i: int|
                        0 <= i < stack.len() && (#[trigger] stack[i]).0 == u by {
                        if u == w {
                            assert(stack[stack.len() - 1].0 == u);
                        } else {
                            assert(status0[u as int] == ACTIVE);
                            let i = choose|i: int| 0 <= i < st0.len() && (#[trigger] st0[i]).0 == u;
                            assert(stack[i].0 == u);
                        }
                    }
                } else {
                    proof {
                        lemma_pending_update(status@, v as int, DONE);
                    }
                    let ghost st0 = stack@;
                    let ghost status0 = status@;
                    let ghost f0 = finished@;
                    proof {
                        assert(search_ok(es, adj@, status@, stack@, finished@));
                        assert(nbrs@ == adj@[v as int]@);
                        lemma_finish_step(es, adj@, status@, stack@, marks, finished@);
                    }
                    assert(!finished@.contains(v)) by {
                        if finished@.contains(v) {
                            let k = choose|k: int| 0 <= k < finished.len() && finished[k] == v;
                            assert(status[finished[k] as int] == DONE);
                        }
                    }
                    stack.pop();
                    status.set(v, DONE);
                    finished.push(v);
                    proof {
                        marks = marks.drop_last();
                        assert(stack@ =~= st0.drop_last());
                        assert(status@ =~= status0.update(v as int, DONE));
                    }
                    assert forall|u: usize| u < n && status[u as int] == ACTIVE implies exists|i: int|
                        0 <= i < stack.len() && (#[trigger] stack[i]).0 == u by {
                        assert(status0[u as int] == ACTIVE);
                        let i = choose|i: int| 0 <= i < st0.len() && (#[trigger] st0[i]).0 == u;
                        assert(i != top);
                        assert(stack[i].0 == u);
                    }
                    assert forall|u: usize| u < n && status[u as int] == DONE implies finished@.contains(u) by {
                        if u == v {
                            assert(finished[finished.len() - 1] == v);
                        } else {
                            assert(status0[u as int] == DONE);
                            assert(f0.contains(u));
                            let k = choose|k: int| 0 <= k < f0.len() && f0[k] == u;
                            assert(finished[k] == u);
                        }
                    }
                }
            }
        }
        s += 1;
    }
    let mut order: Vec<usize> = Vec::new();
    let mut k: usize = finished.len();
    while k > 0
        invariant
            k <= finished.len(),
            order.len() + k == finished.len(),
            forall|i: int| 0 <= i < order.len() ==> #[trigger] order[i] == finished[finished.len() - 1 - i],
        decreases k,
    {
        k -= 1;
        order.push(finished[k]);
    }
    proof {
        let f = finished@;
        let m = f.len() as int;
        assert forall|v: usize| v < n implies order@.contains(v) by {
            assert(f.contains(v));
            let k = choose|k: int| 0 <= k < m && f[k] == v;
            assert(order[m - 1 - k] == v);
        }
        assert forall|i: int, j: int| 0 <= i < order.len() && 0 <= j < order.len() && i != j implies order[i]
            != order[j] by {
            assert(order[i] == f[m - 1 - i]);
            assert(order[j] == f[m - 1 - j]);
        }
        lemma_final_order(es, n as nat, status@, f, order@);
    }
    order
}

} // verus!
