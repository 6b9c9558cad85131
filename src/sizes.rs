use vstd::prelude::*;

verus! {

broadcast use vstd::seq_lib::group_to_multiset_ensures;

/// How many entries of `s` equal `x`.
pub open spec fn count_of(s: Seq<usize>, x: usize) -> nat
    decreases s.len(),
{
    if s.len() == 0 {
        0
    } else {
        count_of(s.drop_last(), x) + if s.last() == x { 1nat } else { 0nat }
    }
}

/// The size of each component `1..=count`, at position `id - 1`.
pub open spec fn size_table(ids: Seq<usize>, count: nat) -> Seq<nat> {
    Seq::new(count, |c: int| count_of(ids, (c + 1) as usize))
}

/// Sum of a sequence of naturals.
pub open spec fn total(s: Seq<nat>) -> nat
    decreases s.len(),
{
    if s.len() == 0 {
        0
    } else {
        total(s.drop_last()) + s.last()
    }
}

/// Every id lies in `1..=count`.
pub open spec fn ids_in_range(ids: Seq<usize>, count: nat) -> bool {
    forall|v: int| 0 <= v < ids.len() ==> 1 <= #[trigger] ids[v] <= count
}

/// Non-increasing.
pub open spec fn sorted_desc(s: Seq<usize>) -> bool {
    forall|i: int, j: int| 0 <= i < j < s.len() ==> #[trigger] s[i] >= #[trigger] s[j]
}

/// The first five entries of `s`, with zeros past its end.
pub open spec fn first_five(s: Seq<usize>) -> Seq<usize> {
    Seq::new(5, |i: int| if i < s.len() { s[i] } else { 0 })
}

/// A value occurs at most as often as there are entries.
pub proof fn lemma_count_of_bound(s: Seq<usize>, x: usize)
    ensures
        count_of(s, x) <= s.len(),
    decreases s.len(),
{
    if s.len() > 0 {
        lemma_count_of_bound(s.drop_last(), x);
    }
}

/// Appending an entry counts it once.
pub proof fn lemma_count_of_push(s: Seq<usize>, y: usize, x: usize)
    ensures
        count_of(s.push(y), x) == count_of(s, x) + if y == x { 1nat } else { 0nat },
{
    assert(s.push(y).drop_last() =~= s);
}

/// `lemma_count_of_push` for every value at once.
proof fn lemma_count_of_push_all(s: Seq<usize>, y: usize)
    ensures
        forall|x: usize| #[trigger] count_of(s.push(y), x) == count_of(s, x) + if y == x { 1nat } else { 0nat },
{
    assert forall|x: usize| #[trigger] count_of(s.push(y), x) == count_of(s, x) + if y == x { 1nat } else { 0nat } by {
        lemma_count_of_push(s, y, x);
    }
}

/// Raising one entry by one raises the sum by one.
proof fn lemma_total_bump(s: Seq<nat>, i: int)
    requires
        0 <= i < s.len(),
    ensures
        total(s.update(i, s[i] + 1)) == total(s) + 1,
    decreases s.len(),
{
    let t = s.update(i, s[i] + 1);
    if i == s.len() - 1 {
        assert(t.drop_last() =~= s.drop_last());
    } else {
        assert(t.drop_last() =~= s.drop_last().update(i, s[i] + 1));
        lemma_total_bump(s.drop_last(), i);
    }
}

/// Zeros add up to zero.
proof fn lemma_total_zero(count: nat)
    ensures
        total(Seq::new(count, |c: int| 0nat)) == 0,
    decreases count,
{
    if count > 0 {
        assert(Seq::new(count, |c: int| 0nat).drop_last() =~= Seq::new((count - 1) as nat, |c: int| 0nat));
        lemma_total_zero((count - 1) as nat);
    }
}

/// The component sizes add up to the number of vertices.
pub proof fn lemma_sizes_sum(ids: Seq<usize>, count: usize)
    requires
        ids_in_range(ids, count as nat),
    ensures
        total(size_table(ids, count as nat)) == ids.len(),
    decreases ids.len(),
{
    if ids.len() == 0 {
        assert(size_table(ids, count as nat) =~= Seq::new(count as nat, |c: int| 0nat));
        lemma_total_zero(count as nat);
    } else {
        let pre = ids.drop_last();
        let x = ids.last();
        assert(ids =~= pre.push(x));
        assert(ids_in_range(pre, count as nat));
        lemma_sizes_sum(pre, count);
        let before = size_table(pre, count as nat);
        let i = x - 1;
        assert forall|c: int| 0 <= c < count implies #[trigger] size_table(ids, count as nat)[c] == before.update(
            i,
            before[i] + 1,
        )[c] by {
            lemma_count_of_push(pre, x, (c + 1) as usize);
        }
        assert(size_table(ids, count as nat) =~= before.update(i, before[i] + 1));
        lemma_total_bump(before, i);
    }
}

/// Tallies, for each id `1..=count`, how many vertices carry it; the size of
/// component `c` stands at position `c - 1`.
pub fn component_sizes(ids: &Vec<usize>, count: usize) -> (r: Vec<usize>)
    requires
        ids_in_range(ids@, count as nat),
    ensures
        r.len() == count,
        tallies(ids@, count as nat, r@),
{
    let mut r: Vec<usize> = Vec::new();
    while r.len() < count
        invariant
            r.len() <= count,
            forall|c: int| 0 <= c < r.len() ==> r[c] == 0,
        decreases count - r.len(),
    {
        r.push(0);
    }
    let mut k: usize = 0;
    while k < ids.len()
        invariant
            k <= ids.len(),
            r.len() == count,
            ids_in_range(ids@, count as nat),
            forall|c: int| 0 <= c < count ==> #[trigger] r[c] as nat == count_of(ids@.take(k as int), (c + 1) as usize),
        decreases ids.len() - k,
    {
        let x = ids[k];
        let i = x - 1;
        proof {
            assert(ids@.take(k as int + 1) =~= ids@.take(k as int).push(x));
            lemma_count_of_bound(ids@.take(k as int), x);
            lemma_count_of_push_all(ids@.take(k as int), x);
        }
        let old_val = r[i];
        r.set(i, old_val + 1);
        k += 1;
    }
    assert(ids@.take(k as int) =~= ids@);
    proof {
        assert forall|c: int| 0 <= c < count implies #[trigger] r@[c] as nat == size_table(ids@, count as nat)[c] by {
            assert(r[c] as nat == count_of(ids@.take(k as int), (c + 1) as usize));
        }
    }
    r
}

/// The same values, largest first.
pub fn sort_descending(v: &Vec<usize>) -> (r: Vec<usize>)
    ensures
        sorted_desc(r@),
        r@.to_multiset() == v@.to_multiset(),
{
    let mut r: Vec<usize> = Vec::new();
    let mut k: usize = 0;
    while k < v.len()
        invariant
            k <= v.len(),
            sorted_desc(r@),
            r@.to_multiset() == v@.take(k as int).to_multiset(),
        decreases v.len() - k,
    {
        let x = v[k];
        let mut p: usize = 0;
        while p < r.len() && r[p] >= x
            invariant
                p <= r.len(),
                forall|i: int| 0 <= i < p ==> r[i] >= x,
            decreases r.len() - p,
        {
            p += 1;
        }
        let ghost r0 = r@;
        r.insert(p, x);
        proof {
            assert(r@ == r0.insert(p as int, x));
            assert forall|i: int, j: int| 0 <= i < j < r@.len() implies #[trigger] r@[i] >= #[trigger] r@[j] by {
                if p < r0.len() {
                    assert(r0[p as int] < x);
                }
                if j < p {
                    assert(r@[i] == r0[i] && r@[j] == r0[j]);
                } else if j == p {
                    assert(r@[i] == r0[i]);
                } else if i == p {
                    assert(r@[j] == r0[j - 1]);
                    assert(r0[p as int] >= r0[j - 1]);
                } else if i < p {
                    assert(r@[i] == r0[i] && r@[j] == r0[j - 1]);
                } else {
                    assert(r@[i] == r0[i - 1] && r@[j] == r0[j - 1]);
                }
            }
            assert(v@.take(k as int + 1) =~= v@.take(k as int).push(x));
            vstd::seq_lib::to_multiset_insert(r0, p as int, x);
        }
        k += 1;
    }
    assert(v@.take(k as int) =~= v@);
    r
}

/// A bound on every entry carries over to a sequence with the same values.
proof fn lemma_same_values_bounded(s: Seq<usize>, t: Seq<usize>, bound: usize)
    requires
        s.to_multiset() == t.to_multiset(),
        forall|i: int| 0 <= i < t.len() ==> #[trigger] t[i] <= bound,
    ensures
        forall|i: int| 0 <= i < s.len() ==> #[trigger] s[i] <= bound,
{
    assert forall|i: int| 0 <= i < s.len() implies #[trigger] s[i] <= bound by {
        let x = s[i];
        assert(s.contains(x));
        vstd::seq_lib::to_multiset_contains(s, x);
        vstd::seq_lib::to_multiset_contains(t, x);
        let k = choose|k: int| 0 <= k < t.len() && t[k] == x;
        assert(t[k] <= bound);
    }
}

/// `r` holds the five largest values of `sizes`, largest first, padded with
/// zeros.
pub open spec fn top_five_of(sizes: Seq<usize>, r: Seq<usize>) -> bool {
    exists|s: Seq<usize>| sorted_desc(s) && s.to_multiset() == sizes.to_multiset() && #[trigger] first_five(s) == r
}

/// `sizes` is the size table of `ids`.
pub open spec fn tallies(ids: Seq<usize>, count: nat, sizes: Seq<usize>) -> bool {
    &&& sizes.len() == count
    &&& forall|c: int| 0 <= c < count ==> #[trigger] sizes[c] as nat == size_table(ids, count)[c]
}

/// Widens each entry.
pub open spec fn widen(r: Seq<u32>) -> Seq<usize> {
    r.map_values(|x: u32| x as usize)
}

/// The five largest values of `sizes`, largest first, padded with zeros.
pub fn top_sizes(sizes: &Vec<usize>) -> (r: [u32; 5])
    requires
        forall|i: int| 0 <= i < sizes.len() ==> #[trigger] sizes[i] <= u32::MAX,
    ensures
        top_five_of(sizes@, widen(r@)),
{
    let s = sort_descending(sizes);
    proof {
        lemma_same_values_bounded(s@, sizes@, u32::MAX as usize);
    }
    let mut out: [u32; 5] = [0, 0, 0, 0, 0];
    let mut i: usize = 0;
    while i < 5 && i < s.len()
        invariant
            i <= 5,
            i <= s.len(),
            s@.to_multiset() == sizes@.to_multiset(),
            forall|j: int| 0 <= j < s.len() ==> #[trigger] s[j] <= u32::MAX,
            forall|j: int| 0 <= j < i ==> out[j] as usize == s[j],
            forall|j: int| i <= j < 5 ==> out[j] == 0,
        decreases 5 - i,
    {
        out[i] = s[i] as u32;
        i += 1;
    }
    assert(first_five(s@) =~= widen(out@));
    out
}

} // verus!
