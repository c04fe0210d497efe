//! The travelling salesman problem on a distance matrix `adj`, where
//! `adj[a][b]` is the distance from city `a` to city `b`: exact searches
//! (backtracking, branch and bound), greedy tours (nearest neighbour, 2-opt)
//! and the random moves of the annealing heuristic.
use vstd::prelude::*;
use rand::rngs::ThreadRng;
use crate::random::{choose_i32, random_index, shuffle_i32};

verus! {

// ---------------------------------------------------------------------------
// The model: distances, paths and tours
// ---------------------------------------------------------------------------

/// The distance from city `a` to city `b`.
pub open spec fn weight(adj: Seq<Vec<i32>>, a: int, b: int) -> int {
    adj[a]@[b] as int
}

/// Every row is long enough to hold a distance to every city.
pub open spec fn rows_cover(adj: Seq<Vec<i32>>) -> bool {
    forall|i: int| 0 <= i < adj.len() ==> #[trigger] adj[i]@.len() >= adj.len()
}

/// Every city of `p` is a city of the matrix.
pub open spec fn in_range(adj: Seq<Vec<i32>>, p: Seq<usize>) -> bool {
    forall|k: int| 0 <= k < p.len() ==> (#[trigger] p[k] as int) < adj.len()
}

/// The length of the walk `p`: the sum of the distances between consecutive cities.
pub open spec fn path_cost(adj: Seq<Vec<i32>>, p: Seq<usize>) -> int
    decreases p.len(),
{
    if p.len() < 2 {
        0
    } else {
        path_cost(adj, p.drop_last()) + weight(adj, p[p.len() - 2] as int, p[p.len() - 1] as int)
    }
}

/// Every partial sum met while adding up the length of `p` fits in an `i32`.
pub open spec fn cost_fits(adj: Seq<Vec<i32>>, p: Seq<usize>) -> bool {
    forall|k: int|
        1 <= k <= p.len() ==> i32::MIN <= #[trigger] path_cost(adj, p.take(k)) <= i32::MAX
}

/// `p` with the segment of positions `i..=j` reversed.
pub open spec fn reverse_segment(p: Seq<usize>, i: int, j: int) -> Seq<usize> {
    Seq::new(p.len(), |k: int| if i <= k <= j { p[i + j - k] } else { p[k] })
}

proof fn lemma_path_cost_take(adj: Seq<Vec<i32>>, p: Seq<usize>, m: int)
    requires
        2 <= m <= p.len(),
    ensures
        path_cost(adj, p.take(m)) == path_cost(adj, p.take(m - 1)) + weight(
            adj,
            p[m - 2] as int,
            p[m - 1] as int,
        ),
{
    assert(p.take(m).drop_last() =~= p.take(m - 1));
}

// ---------------------------------------------------------------------------
// Costs and nearest neighbours
// ---------------------------------------------------------------------------

/// The length of the walk `path`.
pub fn compute_cost(path: &Vec<usize>, adj: &Vec<Vec<i32>>) -> (r: i32)
    requires
        path.len() >= 1,
        rows_cover(adj@),
        in_range(adj@, path@),
        cost_fits(adj@, path@),
    ensures
        r == path_cost(adj@, path@),
{
    let mut cost: i32 = 0;
    let mut i: usize = 0;
    assert(path@.take(1).len() == 1);
    while i < path.len() - 1
        invariant
            path.len() >= 1,
            rows_cover(adj@),
            in_range(adj@, path@),
            cost_fits(adj@, path@),
            i <= path.len() - 1,
            cost == path_cost(adj@, path@.take(i + 1)),
        decreases path.len() - 1 - i,
    {
        proof {
            lemma_path_cost_take(adj@, path@, i + 2);
            assert(path@.take(i + 2).len() == i + 2);
        }
        let a = path[i];
        let b = path[i + 1];
        let row = &adj[a];
        assert((a as int) < adj@.len() && (b as int) < adj@.len());
        cost = cost + row[b];
        i = i + 1;
    }
    assert(path@.take(path.len() as int) =~= path@);
    cost
}

/// The smallest of the first `k` entries of `row` outside the positions in
/// `skip`, or `i32::MAX` when that is smaller.
pub open spec fn row_min_except(row: Seq<i32>, skip: Set<int>, k: int) -> int
    decreases k,
{
    if k <= 0 {
        i32::MAX as int
    } else {
        let prev = row_min_except(row, skip, k - 1);
        if skip.contains(k - 1) || prev <= row[k - 1] {
            prev
        } else {
            row[k - 1] as int
        }
    }
}

proof fn lemma_row_min_except_same(row: Seq<i32>, s1: Set<int>, s2: Set<int>, k: int)
    requires
        forall|x: int| 0 <= x < k ==> (s1.contains(x) <==> s2.contains(x)),
    ensures
        row_min_except(row, s1, k) == row_min_except(row, s2, k),
    decreases k,
{
    if k > 0 {
        lemma_row_min_except_same(row, s1, s2, k - 1);
    }
}

proof fn lemma_row_min_except_is_entry(row: Seq<i32>, skip: Set<int>, k: int)
    ensures
        row_min_except(row, skip, k) == i32::MAX || exists|j: int|
            0 <= j < k && !skip.contains(j) && row_min_except(row, skip, k) == row[j],
        row_min_except(row, skip, k) <= i32::MAX,
        forall|j: int| 0 <= j < k && !skip.contains(j) ==> row_min_except(row, skip, k) <= row[j],
    decreases k,
{
    if k > 0 {
        lemma_row_min_except_is_entry(row, skip, k - 1);
    }
}

/// The last of the nearest cities other than `i` among `0..k` on `row`;
/// `-1` when there is none.
pub open spec fn nearest_other(row: Seq<i32>, i: int, k: int) -> int
    decreases k,
{
    if k <= 0 {
        -1
    } else {
        let prev = nearest_other(row, i, k - 1);
        if k - 1 != i && (prev == -1 || row[k - 1] <= row[prev]) {
            k - 1
        } else {
            prev
        }
    }
}

/// The distance on `row` (of city `i`, over the cities `0..n`) that is left
/// nearest once a nearest city other than `i` is set aside; `i32::MAX` when
/// there are fewer than 2 cities.
pub open spec fn second_min_value(row: Seq<i32>, i: int, n: int) -> int {
    if n < 2 {
        i32::MAX as int
    } else {
        row_min_except(row, set![i, nearest_other(row, i, n)], n)
    }
}

/// The distance from city `i` to its nearest other city (`i32::MAX` when
/// there is none nearer).
pub fn first_min(adj: &Vec<Vec<i32>>, i: usize) -> (r: i32)
    requires
        i < adj.len(),
        adj@[i as int]@.len() >= adj.len(),
    ensures
        r == row_min_except(adj@[i as int]@, set![i as int], adj.len() as int),
{
    let mut min = i32::MAX;
    let row = &adj[i];
    let mut j: usize = 0;
    while j < adj.len()
        invariant
            i < adj.len(),
            row@ == adj@[i as int]@,
            row@.len() >= adj.len(),
            j <= adj.len(),
            min == row_min_except(row@, set![i as int], j as int),
        decreases adj.len() - j,
    {
        if i != j && row[j] < min {
            min = row[j];
        }
        j = j + 1;
    }
    min
}

/// The distance from city `i` to its second nearest other city: the smallest
/// distance left once one nearest city is set aside (so it equals the
/// nearest distance when two cities tie), or `i32::MAX` when there is none.
pub fn second_min(adj: &Vec<Vec<i32>>, i: usize) -> (r: i32)
    requires
        i < adj.len(),
        adj@[i as int]@.len() >= adj.len(),
    ensures
        adj.len() < 2 ==> r == i32::MAX,
        adj.len() >= 2 ==> exists|k: int|
            0 <= k < adj.len() && k != i && adj@[i as int]@[k] == row_min_except(
                adj@[i as int]@,
                set![i as int],
                adj.len() as int,
            ) && r == row_min_except(adj@[i as int]@, set![i as int, k], adj.len() as int),
        r == second_min_value(adj@[i as int]@, i as int, adj.len() as int),
{
    let mut first = i32::MAX;
    let mut second = i32::MAX;
    let row = &adj[i];
    let ghost mut kf: int = -1;
    let mut j: usize = 0;
    while j < adj.len()
        invariant
            i < adj.len(),
            row@ == adj@[i as int]@,
            row@.len() >= adj.len(),
            j <= adj.len(),
            first == row_min_except(row@, set![i as int], j as int),
            kf == nearest_other(row@, i as int, j as int),
            kf == -1 ==> second == i32::MAX && (j == 0 || (j == 1 && i == 0)),
            kf != -1 ==> 0 <= kf < j && kf != i && row@[kf] == first && second == row_min_except(
                row@,
                set![i as int, kf],
                j as int,
            ),
        decreases adj.len() - j,
    {
        if i != j {
            let x = row[j];
            proof {
                if kf != -1 {
                    lemma_row_min_except_is_entry(row@, set![i as int, kf], j as int);
                }
                lemma_row_min_except_is_entry(row@, set![i as int], j as int);
            }
            if x <= first {
                proof {
                    lemma_row_min_except_same(row@, set![i as int, j as int], set![i as int], j as int);
                    if kf == -1 {
                        assert(row_min_except(row@, set![i as int], j as int) == i32::MAX) by {
                            lemma_row_min_except_is_entry(row@, set![i as int], j as int);
                        }
                    }
                    kf = j as int;
                }
                second = first;
                first = x;
            } else if x < second {
                second = x;
            }
        }
        j = j + 1;
    }
    proof {
        if adj.len() >= 2 && kf == -1 {
            assert(0 <= i < adj.len());
            let other: int = if i == 0 { 1 } else { 0 };
            assert(other != i);
        }

    }
    second
}


// ---------------------------------------------------------------------------
// Segment reversal and 2-opt
// ---------------------------------------------------------------------------

/// Reverses, in place, the cities at positions `i..=j` of `v`.
fn reverse_range(v: &mut Vec<usize>, i: usize, j: usize)
    requires
        i <= j < old(v).len(),
    ensures
        final(v)@ == reverse_segment(old(v)@, i as int, j as int),
        final(v)@.to_multiset() == old(v)@.to_multiset(),
{
    broadcast use vstd::multiset::group_multiset_properties;
    let ghost orig = v@;
    let mut lo = i;
    let mut hi = j;
    while lo < hi
        invariant
            i <= lo,
            hi <= j < orig.len(),
            lo + hi == i + j,
            lo <= hi + 1,
            v@.len() == orig.len(),
            v@.to_multiset() == orig.to_multiset(),
            forall|k: int|
                0 <= k < orig.len() ==> #[trigger] v@[k] == if (i <= k < lo || hi < k <= j) {
                    orig[i + j - k]
                } else {
                    orig[k]
                },
        decreases hi + 1 - lo,
    {
        let a = v[lo];
        let b = v[hi];
        proof {
            let s1 = v@.update(lo as int, b);
            vstd::seq_lib::to_multiset_update(v@, lo as int, b);
            vstd::seq_lib::to_multiset_update(s1, hi as int, a);
            assert(s1[hi as int] == b);
            assert(v@.contains(a));
            vstd::seq_lib::to_multiset_contains(v@, a);
            assert(v@.to_multiset().insert(b).remove(a).insert(a).remove(b) =~= v@.to_multiset());
        }
        v.set(lo, b);
        v.set(hi, a);
        lo = lo + 1;
        hi = hi - 1;
    }
    assert(v@ =~= reverse_segment(orig, i as int, j as int));
}

proof fn lemma_reverse_in_range(adj: Seq<Vec<i32>>, p: Seq<usize>, i: int, j: int)
    requires
        in_range(adj, p),
        0 <= i <= j < p.len(),
    ensures
        in_range(adj, reverse_segment(p, i, j)),
{
    let q = reverse_segment(p, i, j);
    assert forall|k: int| 0 <= k < q.len() implies (#[trigger] q[k] as int) < adj.len() by {
        if i <= k <= j {
            assert(p[i + j - k] == q[k]);
        }
    }
}

/// `q` is `p` with its cities rearranged, the first and last positions kept.
pub open spec fn is_rearrangement(p: Seq<usize>, q: Seq<usize>) -> bool {
    &&& q.len() == p.len()
    &&& p.len() >= 1
    &&& q[0] == p[0]
    &&& q[p.len() - 1] == p[p.len() - 1]
    &&& q.to_multiset() == p.to_multiset()
}

/// Every partial length of every rearrangement of `p` that keeps its ends
/// fits in an `i32`: no walk that 2-opt can reach from `p` overflows.
pub open spec fn rearrangements_fit(adj: Seq<Vec<i32>>, p: Seq<usize>) -> bool {
    forall|q: Seq<usize>| is_rearrangement(p, q) ==> #[trigger] cost_fits(adj, q)
}

/// A rearrangement of a rearrangement is a rearrangement.
proof fn lemma_rearrangements_fit_trans(adj: Seq<Vec<i32>>, p: Seq<usize>, q: Seq<usize>)
    requires
        is_rearrangement(p, q),
        rearrangements_fit(adj, p),
    ensures
        rearrangements_fit(adj, q),
        is_rearrangement(q, q),
{
    assert forall|r: Seq<usize>| is_rearrangement(q, r) implies #[trigger] cost_fits(adj, r) by {
        assert(is_rearrangement(p, r));
    }
}

/// A walk whose partial lengths fit has its length within `i32`.
proof fn lemma_cost_fits_total(adj: Seq<Vec<i32>>, p: Seq<usize>)
    requires
        cost_fits(adj, p),
        p.len() >= 1,
    ensures
        i32::MIN <= path_cost(adj, p) <= i32::MAX,
{
    assert(p.take(p.len() as int) =~= p);
    assert(i32::MIN <= path_cost(adj, p.take(p.len() as int)) <= i32::MAX);
}

/// Tries one 2-opt move: keeps the reversal of positions `i..=j` of `path`
/// when it makes the walk strictly shorter, and says whether it did.
#[verifier::rlimit(30)]
fn try_reverse(path: &mut Vec<usize>, adj: &Vec<Vec<i32>>, i: usize, j: usize) -> (better: bool)
    requires
        1 <= i < j < old(path).len() - 1,
        rows_cover(adj@),
        in_range(adj@, old(path)@),
        rearrangements_fit(adj@, old(path)@),
    ensures
        final(path).len() == old(path).len(),
        better ==> final(path)@ == reverse_segment(old(path)@, i as int, j as int)
            && path_cost(adj@, final(path)@) < path_cost(adj@, old(path)@),
        !better ==> final(path)@ == old(path)@ && path_cost(
            adj@,
            reverse_segment(old(path)@, i as int, j as int),
        ) >= path_cost(adj@, old(path)@),
        final(path)@.to_multiset() == old(path)@.to_multiset(),
        in_range(adj@, final(path)@),
        cost_fits(adj@, final(path)@),
        i32::MIN <= path_cost(adj@, final(path)@) <= i32::MAX,
        final(path)@[0] == old(path)@[0],
        final(path)@[old(path).len() - 1] == old(path)@[old(path).len() - 1],
        rearrangements_fit(adj@, final(path)@),
{
    let len = path.len();
    let mut new_path = path.clone();
    assert(new_path@ =~= path@);
    reverse_range(&mut new_path, i, j);
    proof {
        lemma_reverse_in_range(adj@, path@, i as int, j as int);
        assert(is_rearrangement(path@, new_path@));
        assert(is_rearrangement(path@, path@));
        assert(cost_fits(adj@, new_path@));
        assert(cost_fits(adj@, path@));
    }
    let new_cost = compute_cost(&new_path, adj);
    let old_cost = compute_cost(path, adj);
    proof {
        assert(new_path@.take(len as int) =~= new_path@);
        assert(path@.take(len as int) =~= path@);
    }
    if new_cost < old_cost {
        proof {
            lemma_rearrangements_fit_trans(adj@, path@, new_path@);
        }
        *path = new_path;
        true
    } else {
        false
    }
}

/// No reversal of an inner segment of the closed tour `p` makes it shorter:
/// `p` is a local optimum of the 2-opt move (the first and last positions,
/// which hold the start city, stay in place).
pub open spec fn two_opt_optimal(adj: Seq<Vec<i32>>, p: Seq<usize>) -> bool {
    forall|i: int, j: int|
        1 <= i < j < p.len() - 1 ==> path_cost(adj, #[trigger] reverse_segment(p, i, j))
            >= path_cost(adj, p)
}

/// The 2-opt move at positions `i..=j`: the reversal when it makes the walk
/// strictly shorter, else the walk as it is.
pub open spec fn two_opt_step(adj: Seq<Vec<i32>>, p: Seq<usize>, i: int, j: int) -> Seq<usize> {
    if path_cost(adj, reverse_segment(p, i, j)) < path_cost(adj, p) {
        reverse_segment(p, i, j)
    } else {
        p
    }
}

/// One pass of 2-opt moves over the pairs of positions `1 <= a < b < n`,
/// taken in order, from the pair `(i, j)` on.
pub open spec fn two_opt_pass(adj: Seq<Vec<i32>>, p: Seq<usize>, n: int, i: int, j: int) -> Seq<
    usize,
>
    decreases n - i, n - j,
{
    if i < 1 || i >= n - 1 {
        p
    } else if j >= n {
        two_opt_pass(adj, p, n, i + 1, i + 2)
    } else {
        two_opt_pass(adj, two_opt_step(adj, p, i, j), n, i, j + 1)
    }
}

/// The walk after `k` passes of 2-opt moves over the pairs of positions
/// `1 <= a < b < n`.
pub open spec fn two_opt_rounds(adj: Seq<Vec<i32>>, p: Seq<usize>, n: int, k: nat) -> Seq<usize>
    decreases k,
{
    if k == 0 {
        p
    } else {
        let prev = two_opt_rounds(adj, p, n, (k - 1) as nat);
        two_opt_pass(adj, prev, n, 1, 2)
    }
}

/// Improves the closed tour `path` (its last city is its first) by 2-opt
/// moves until no reversal of an inner segment shortens it; returns the
/// length of the final tour and the tour.
pub fn tsp_two_opt(path: Vec<usize>, adj: &Vec<Vec<i32>>) -> (r: (i32, Vec<usize>))
    requires
        path.len() >= 2,
        rows_cover(adj@),
        in_range(adj@, path@),
        rearrangements_fit(adj@, path@),
    ensures
        r.1.len() == path.len(),
        r.1@[0] == path@[0],
        r.1@[path.len() - 1] == path@[path.len() - 1],
        r.1@.to_multiset() == path@.to_multiset(),
        in_range(adj@, r.1@),
        r.0 == path_cost(adj@, r.1@),
        r.0 <= path_cost(adj@, path@),
        two_opt_optimal(adj@, r.1@),
        exists|k: nat|
            r.1@ == #[trigger] two_opt_rounds(adj@, path@, path.len() - 1, k) && two_opt_pass(
                adj@,
                r.1@,
                path.len() - 1,
                1,
                2,
            ) == r.1@,
{
    let mut path = path;
    let ghost p0 = path@;
    let len = path.len();
    let n = len - 1;
    let mut improved = true;
    let ghost mut rounds: nat = 0;
    proof {
        assert(is_rearrangement(path@, path@));
        lemma_cost_fits_total(adj@, path@);
    }
    while improved
        invariant
            path@ == two_opt_rounds(adj@, p0, n as int, rounds),
            !improved ==> two_opt_pass(adj@, path@, n as int, 1, 2) == path@,
            len == path.len(),
            len >= 2,
            n == len - 1,
            rows_cover(adj@),
            in_range(adj@, path@),
            rearrangements_fit(adj@, path@),
            cost_fits(adj@, path@),
            i32::MIN <= path_cost(adj@, path@) <= i32::MAX,
            path@[0] == p0[0],
            path@[len - 1] == p0[len - 1],
            path@.to_multiset() == p0.to_multiset(),
            path_cost(adj@, path@) <= path_cost(adj@, p0),
            !improved ==> two_opt_optimal(adj@, path@),
        decreases path_cost(adj@, path@) - i32::MIN + if improved {
            1int
        } else {
            0int
        },
    {
        proof {
            assert(path@.take(len as int) =~= path@);
        }
        improved = false;
        let ghost start = path@;
        let mut i: usize = 1;
        while i < n - 1
            invariant
                len == path.len(),
                len >= 2,
                n == len - 1,
                1 <= i,
                rows_cover(adj@),
                in_range(adj@, path@),
                rearrangements_fit(adj@, path@),
                cost_fits(adj@, path@),
                i32::MIN <= path_cost(adj@, path@) <= i32::MAX,
                path@[0] == p0[0],
                path@[len - 1] == p0[len - 1],
                path@.to_multiset() == p0.to_multiset(),
                path_cost(adj@, path@) <= path_cost(adj@, start),
                start.len() == len,
                path_cost(adj@, start) <= path_cost(adj@, p0),
                improved ==> path_cost(adj@, path@) < path_cost(adj@, start),
                !improved ==> path@ == start,
                two_opt_pass(adj@, path@, n as int, i as int, i + 1) == two_opt_pass(
                    adj@,
                    start,
                    n as int,
                    1,
                    2,
                ),
                !improved ==> forall|a: int, b: int|
                    1 <= a < i && a < b < len - 1 ==> path_cost(
                        adj@,
                        #[trigger] reverse_segment(start, a, b),
                    ) >= path_cost(adj@, start),
            decreases n - i,
        {
            let mut j: usize = i + 1;
            while j < n
                invariant
                    len == path.len(),
                    len >= 2,
                    n == len - 1,
                    1 <= i < n - 1,
                    i < j <= n,
                    rows_cover(adj@),
                    in_range(adj@, path@),
                    rearrangements_fit(adj@, path@),
                    cost_fits(adj@, path@),
                    i32::MIN <= path_cost(adj@, path@) <= i32::MAX,
                    path@[0] == p0[0],
                    path@[len - 1] == p0[len - 1],
                    path@.to_multiset() == p0.to_multiset(),
                    path_cost(adj@, path@) <= path_cost(adj@, start),
                    start.len() == len,
                    path_cost(adj@, start) <= path_cost(adj@, p0),
                    improved ==> path_cost(adj@, path@) < path_cost(adj@, start),
                    !improved ==> path@ == start,
                    two_opt_pass(adj@, path@, n as int, i as int, j as int) == two_opt_pass(
                        adj@,
                        start,
                        n as int,
                        1,
                        2,
                    ),
                    !improved ==> forall|a: int, b: int|
                        (1 <= a < i && a < b < len - 1) || (a == i && i < b < j) ==> path_cost(
                            adj@,
                            #[trigger] reverse_segment(start, a, b),
                        ) >= path_cost(adj@, start),
                decreases n - j,
            {
                let ghost before = path@;
                let better = try_reverse(&mut path, adj, i, j);
                proof {
                    assert(path@ == two_opt_step(adj@, before, i as int, j as int));
                }
                if better {
                    improved = true;
                }
                j = j + 1;
            }
            i = i + 1;
        }
        proof {
            if improved {
                assert(path@ != start);
            }
            rounds = rounds + 1;
        }
    }
    let best_cost = compute_cost(&path, adj);
    (best_cost, path)
}

/// A copy of `path` with the cities between positions `i` and `j` (both
/// included, in either order) reversed.
pub fn reverse_between(path: &Vec<usize>, i: usize, j: usize) -> (r: Vec<usize>)
    requires
        i < path.len(),
        j < path.len(),
    ensures
        r@ == (if i < j {
            reverse_segment(path@, i as int, j as int)
        } else {
            reverse_segment(path@, j as int, i as int)
        }),
        r@.to_multiset() == path@.to_multiset(),
{
    let mut new_path = path.clone();
    assert(new_path@ =~= path@);
    let (start, end) = if i < j {
        (i, j)
    } else {
        (j, i)
    };
    reverse_range(&mut new_path, start, end);
    new_path
}

/// A random 2-opt move for the annealing heuristic: reverses the cities at
/// positions `start..=end` for two random positions of the inner part of the
/// closed tour `path` (so the first and last cities stay in place).
pub fn generate_neighbor(path: &Vec<usize>, rng: &mut ThreadRng) -> (r: Vec<usize>)
    requires
        path.len() >= 3,
    ensures
        exists|s: int, e: int|
            1 <= s <= e < path.len() - 1 && r@ == reverse_segment(path@, s, e),
        r@.to_multiset() == path@.to_multiset(),
{
    let n = path.len() - 1;
    let i = random_index(rng, 1, n);
    let j = random_index(rng, 1, n);
    reverse_between(path, i, j)
}


// ---------------------------------------------------------------------------
// Counting distinct cities
// ---------------------------------------------------------------------------

/// A sequence without repeats whose elements all occur in `s` is no longer than `s`.
pub proof fn lemma_distinct_subset_len(t: Seq<usize>, s: Seq<usize>)
    requires
        t.no_duplicates(),
        forall|i: int| 0 <= i < t.len() ==> s.contains(#[trigger] t[i]),
    ensures
        t.len() <= s.len(),
    decreases t.len(),
{
    if t.len() > 0 {
        let x = t.last();
        assert(s.contains(t[t.len() - 1]));
        let idx = choose|k: int| 0 <= k < s.len() && s[k] == x;
        let s2 = s.remove(idx);
        let t2 = t.drop_last();
        assert forall|i: int| 0 <= i < t2.len() implies s2.contains(#[trigger] t2[i]) by {
            assert(t2[i] == t[i]);
            assert(s.contains(t[i]));
            let k = choose|k: int| 0 <= k < s.len() && s[k] == t[i];
            assert(k != idx);
            if k < idx {
                assert(s2[k] == s[k]);
            } else {
                assert(s2[k - 1] == s[k]);
            }
        }
        lemma_distinct_subset_len(t2, s2);
    }
}

/// The cities `0..n` in order.
pub open spec fn all_cities(n: nat) -> Seq<usize> {
    Seq::new(n, |i: int| i as usize)
}

/// Distinct cities below `n` number at most `n`.
pub proof fn lemma_distinct_cities_len(p: Seq<usize>, n: nat)
    requires
        p.no_duplicates(),
        forall|i: int| 0 <= i < p.len() ==> (#[trigger] p[i] as int) < n,
        n <= usize::MAX + 1,
    ensures
        p.len() <= n,
{
    let r = all_cities(n);
    assert forall|i: int| 0 <= i < p.len() implies r.contains(#[trigger] p[i]) by {
        assert(r[p[i] as int] == p[i]);
    }
    lemma_distinct_subset_len(p, r);
}

proof fn lemma_path_cost_push(adj: Seq<Vec<i32>>, p: Seq<usize>, x: usize)
    requires
        p.len() >= 1,
    ensures
        path_cost(adj, p.push(x)) == path_cost(adj, p) + weight(adj, p.last() as int, x as int),
{
    assert(p.push(x).drop_last() =~= p);
}

// ---------------------------------------------------------------------------
// Nearest neighbour
// ---------------------------------------------------------------------------

/// `next` is the city that the greedy step takes from `cur` when the cities
/// of `seen` are visited: the nearest unvisited city, the lowest-numbered one
/// among equally near ones.
pub open spec fn greedy_choice(adj: Seq<Vec<i32>>, seen: Seq<usize>, cur: usize, next: usize) -> bool {
    &&& (next as int) < adj.len()
    &&& !seen.contains(next)
    &&& forall|d: usize|
        (d as int) < adj.len() && !seen.contains(d) ==> weight(adj, cur as int, d as int) >= weight(
            adj,
            cur as int,
            next as int,
        ) && (d < next ==> weight(adj, cur as int, d as int) > weight(adj, cur as int, next as int))
}

/// `tour` visits every city of the `n`-city matrix once, starting and
/// ending at city 0.
pub open spec fn is_closed_tour(adj: Seq<Vec<i32>>, tour: Seq<usize>) -> bool {
    &&& tour.len() == adj.len() + 1
    &&& tour[0] == 0
    &&& tour[adj.len() as int] == 0
    &&& tour.take(adj.len() as int).no_duplicates()
    &&& in_range(adj, tour)
}

/// `p` starts at city 0 and each of its steps is the greedy step.
pub open spec fn is_greedy_walk(adj: Seq<Vec<i32>>, p: Seq<usize>) -> bool {
    &&& p.len() >= 1
    &&& p[0] == 0
    &&& forall|k: int|
        0 <= k < p.len() - 1 ==> greedy_choice(adj, #[trigger] p.take(k + 1), p[k], p[k + 1])
}

/// The greedy walk never gets stuck: at every greedy walk that has not yet
/// visited every city, some unvisited city lies at a distance below
/// `i32::MAX` from the last one.
pub open spec fn greedy_never_stuck(adj: Seq<Vec<i32>>) -> bool {
    forall|p: Seq<usize>|
        #[trigger] is_greedy_walk(adj, p) && p.len() < adj.len() ==> exists|c: usize|
            (c as int) < adj.len() && !p.contains(c) && weight(adj, p.last() as int, c as int)
                < i32::MAX
}

/// Every partial length of the greedy walk, and of its return to city 0,
/// fits in an `i32`.
pub open spec fn greedy_fits(adj: Seq<Vec<i32>>) -> bool {
    forall|p: Seq<usize>|
        #[trigger] is_greedy_walk(adj, p) && p.len() <= adj.len() ==> cost_fits(adj, p) && (p.len()
            == adj.len() ==> cost_fits(adj, p.push(0)))
}

/// The greedy tour: from city 0, go to the nearest unvisited city (the
/// lowest-numbered one on ties) until every city is visited, then return to
/// city 0. Returns the length of the tour and the tour.
pub fn tsp_nearest_neighbor(adj: &Vec<Vec<i32>>) -> (r: (i32, Vec<usize>))
    requires
        adj.len() >= 1,
        rows_cover(adj@),
        greedy_never_stuck(adj@),
        greedy_fits(adj@),
    ensures
        is_closed_tour(adj@, r.1@),
        forall|k: int|
            0 <= k < adj.len() - 1 ==> greedy_choice(
                adj@,
                #[trigger] r.1@.take(k + 1),
                r.1@[k],
                r.1@[k + 1],
            ),
        r.0 == path_cost(adj@, r.1@),
{
    let n = adj.len();
    let mut visited: Vec<bool> = Vec::new();
    let mut c: usize = 0;
    while c < n
        invariant
            c <= n,
            visited.len() == c,
            forall|k: int| 0 <= k < c ==> !visited@[k],
        decreases n - c,
    {
        visited.push(false);
        c = c + 1;
    }
    let mut path: Vec<usize> = Vec::new();
    let mut current: usize = 0;
    let mut total_cost: i32 = 0;
    visited.set(current, true);
    path.push(current);
    proof {
        assert forall|k: int| 0 <= k < n implies (visited@[k] <==> path@.contains(k as usize)) by {
            if k == 0 {
                assert(path@[0] == 0);
            }
        }
    }
    let mut step: usize = 1;
    while step < n
        invariant
            n == adj.len(),
            n >= 1,
            rows_cover(adj@),
            greedy_never_stuck(adj@),
            greedy_fits(adj@),
            1 <= step <= n,
            path.len() == step,
            visited.len() == n,
            path@[0] == 0,
            current == path@[step - 1],
            path@.no_duplicates(),
            in_range(adj@, path@),
            forall|k: int| 0 <= k < n ==> (visited@[k] <==> path@.contains(k as usize)),
            forall|k: int|
                0 <= k < step - 1 ==> greedy_choice(
                    adj@,
                    #[trigger] path@.take(k + 1),
                    path@[k],
                    path@[k + 1],
                ),
            total_cost == path_cost(adj@, path@),
        decreases n - step,
    {
        let mut nearest: Option<usize> = None;
        let mut min_dist: i32 = i32::MAX;
        let row = &adj[current];
        let mut city: usize = 0;
        while city < n
            invariant
                n == adj.len(),
                rows_cover(adj@),
                (current as int) < n,
                row@ == adj@[current as int]@,
                row@.len() >= n,
                visited.len() == n,
                forall|k: int| 0 <= k < n ==> (visited@[k] <==> path@.contains(k as usize)),
                city <= n,
                nearest is None ==> min_dist == i32::MAX && forall|d: usize|
                    d < city && !path@.contains(d) ==> row@[d as int] >= i32::MAX,
                nearest matches Some(b) ==> b < city && !path@.contains(b) && min_dist == row@[b as int]
                    && forall|d: usize|
                    d < city && !path@.contains(d) ==> row@[d as int] >= min_dist && (d < b
                        ==> row@[d as int] > min_dist),
            decreases n - city,
        {
            if !visited[city] && row[city] < min_dist {
                min_dist = row[city];
                nearest = Some(city);
            }
            city = city + 1;
        }
        proof {
            assert(is_greedy_walk(adj@, path@));
            assert(path@.last() == current);
            let c = choose|c: usize|
                (c as int) < n && !path@.contains(c) && weight(adj@, current as int, c as int)
                    < i32::MAX;
            assert(!visited@[c as int]);
        }
        let next = match nearest {
            Some(b) => b,
            None => 0,
        };
        proof {
            let newp = path@.push(next);
            lemma_path_cost_push(adj@, path@, next);
            assert(newp.no_duplicates());
            assert(in_range(adj@, newp));
            assert forall|k: int| 0 <= k < step implies #[trigger] newp.take(k + 1) == path@.take(
                k + 1,
            ) by {
                assert(newp.take(k + 1) =~= path@.take(k + 1));
            }
            assert(greedy_choice(adj@, path@, current, next));
            assert(newp.take(step as int) =~= path@);
            assert(is_greedy_walk(adj@, newp));
            lemma_distinct_cities_len(newp, n as nat);
            assert(cost_fits(adj@, newp));
            assert(newp.take(newp.len() as int) =~= newp);
            assert(path@.take(step as int) =~= path@);
            assert(greedy_choice(adj@, path@, current, next));
            assert forall|k: int| 0 <= k < step implies #[trigger] newp.take(k + 1) == path@.take(
                k + 1,
            ) by {
                assert(newp.take(k + 1) =~= path@.take(k + 1));
            }
        }
        let ghost old_path = path@;
        visited.set(next, true);
        path.push(next);
        proof {
            assert forall|k: int| 0 <= k < n implies (visited@[k] <==> path@.contains(
                k as usize,
            )) by {
                if path@.contains(k as usize) && k != next {
                    let t = choose|t: int| 0 <= t < path@.len() && path@[t] == k as usize;
                    assert(t < old_path.len());
                    assert(old_path[t] == k as usize);
                }
                if old_path.contains(k as usize) {
                    let t = choose|t: int| 0 <= t < old_path.len() && old_path[t] == k as usize;
                    assert(path@[t] == k as usize);
                }
                assert(path@[old_path.len() as int] == next);
            }
        }
        total_cost = total_cost + min_dist;
        current = next;
        step = step + 1;
    }
    proof {
        let newp = path@.push(0);
        lemma_path_cost_push(adj@, path@, 0);
        assert(path@.take(n as int) =~= path@);
        assert(is_greedy_walk(adj@, path@));
        assert(cost_fits(adj@, newp));
        assert(newp.take(newp.len() as int) =~= newp);
        assert(newp.take(n as int) =~= path@);
        assert forall|k: int| 0 <= k < n - 1 implies #[trigger] newp.take(k + 1) == path@.take(
            k + 1,
        ) by {
            assert(newp.take(k + 1) =~= path@.take(k + 1));
        }
    }
    let row = &adj[current];
    total_cost = total_cost + row[0];
    path.push(0);
    (total_cost, path)
}


// ---------------------------------------------------------------------------
// Exhaustive search
// ---------------------------------------------------------------------------

/// Every step of the walk `p` goes along a strictly positive distance.
pub open spec fn positive_steps(adj: Seq<Vec<i32>>, p: Seq<usize>) -> bool {
    forall|i: int|
        0 <= i < p.len() - 1 ==> #[trigger] weight(adj, p[i] as int, p[i + 1] as int) > 0
}

/// A tour that the exhaustive search can take: it lists every city once,
/// starting at city 0, and every step, the return to city 0 included, goes
/// along a strictly positive distance.
pub open spec fn is_positive_tour(adj: Seq<Vec<i32>>, t: Seq<usize>) -> bool {
    &&& t.len() == adj.len()
    &&& t.len() >= 1
    &&& t[0] == 0
    &&& t.no_duplicates()
    &&& in_range(adj, t)
    &&& positive_steps(adj, t)
    &&& weight(adj, t.last() as int, 0) > 0
}

/// The length of the round trip that visits the cities of `t` in order and
/// returns to the first one.
pub open spec fn tour_cost(adj: Seq<Vec<i32>>, t: Seq<usize>) -> int {
    path_cost(adj, t) + weight(adj, t.last() as int, t[0] as int)
}

/// A walk whose every step is positive has a non-negative length.
proof fn lemma_positive_path_nonneg(adj: Seq<Vec<i32>>, p: Seq<usize>)
    requires
        positive_steps(adj, p),
    ensures
        0 <= path_cost(adj, p),
    decreases p.len(),
{
    if p.len() >= 2 {
        let q = p.drop_last();
        assert(positive_steps(adj, q)) by {
            assert forall|i: int| 0 <= i < q.len() - 1 implies #[trigger] weight(
                adj,
                q[i] as int,
                q[i + 1] as int,
            ) > 0 by {
                assert(weight(adj, p[i] as int, p[i + 1] as int) > 0);
            }
        }
        lemma_positive_path_nonneg(adj, q);
        let i = p.len() - 2;
        assert(weight(adj, p[i] as int, p[i + 1] as int) > 0);
    }
}

/// `p` is a walk that the exhaustive search can take: from city 0, no city
/// twice, every step along a positive distance.
pub open spec fn is_positive_walk(adj: Seq<Vec<i32>>, p: Seq<usize>) -> bool {
    &&& p.len() >= 1
    &&& p[0] == 0
    &&& p.no_duplicates()
    &&& in_range(adj, p)
    &&& positive_steps(adj, p)
}

/// The length of every walk that the exhaustive search can take, and of
/// every round trip it closes along a positive distance, fits in an `i32`.
pub open spec fn positive_walks_fit(adj: Seq<Vec<i32>>) -> bool {
    forall|p: Seq<usize>|
        #[trigger] is_positive_walk(adj, p) ==> path_cost(adj, p) <= i32::MAX && (p.len()
            == adj.len() && weight(adj, p.last() as int, 0) > 0 ==> path_cost(adj, p.push(0))
            <= i32::MAX)
}

fn tsp_backtrack_req(
    adj: &Vec<Vec<i32>>,
    visited: &mut Vec<bool>,
    curr_pos: usize,
    count: usize,
    cost: i32,
    best_cost: &mut i32,
    start: usize,
    Ghost(p): Ghost<Seq<usize>>,
)
    requires
        adj.len() >= 1,
        rows_cover(adj@),
        positive_walks_fit(adj@),
        start == 0,
        p.len() == count,
        1 <= count <= adj.len(),
        p[0] == 0,
        p.last() == curr_pos,
        p.no_duplicates(),
        in_range(adj@, p),
        positive_steps(adj@, p),
        old(visited).len() == adj.len(),
        forall|k: int| 0 <= k < adj.len() ==> (old(visited)@[k] <==> p.contains(k as usize)),
        cost == path_cost(adj@, p),
    ensures
        final(visited)@ == old(visited)@,
        *final(best_cost) <= *old(best_cost),
        forall|t: Seq<usize>|
            is_positive_tour(adj@, t) && #[trigger] t.take(count as int) == p ==> *final(best_cost)
                <= tour_cost(adj@, t),
        *final(best_cost) == *old(best_cost) || exists|t: Seq<usize>|
            is_positive_tour(adj@, t) && #[trigger] t.take(count as int) == p && tour_cost(adj@, t)
                == *final(best_cost),
    decreases adj.len() - count,
{
    let n = adj.len();
    let row = &adj[curr_pos];
    if count == n && row[start] > 0 {
        proof {
            assert(p.take(n as int) =~= p);
            assert(is_positive_tour(adj@, p));
            let q = p.push(0);
            lemma_path_cost_push(adj@, p, 0);
            assert(positive_steps(adj@, q)) by {
                assert forall|i: int| 0 <= i < q.len() - 1 implies #[trigger] weight(
                    adj@,
                    q[i] as int,
                    q[i + 1] as int,
                ) > 0 by {
                    if i < p.len() - 1 {
                        assert(weight(adj@, p[i] as int, p[i + 1] as int) > 0);
                    }
                }
            }
            lemma_positive_path_nonneg(adj@, q);
            assert(is_positive_walk(adj@, p));
            assert forall|t: Seq<usize>|
                is_positive_tour(adj@, t) && #[trigger] t.take(count as int) == p implies t == p by {
                assert(t =~= t.take(count as int));
            }
        }
        let total_cost = cost + row[start];
        if total_cost < *best_cost {
            *best_cost = total_cost;
        }
        return;
    }
    let ghost old_best = *best_cost;
    let mut city: usize = 0;
    while city < n
        invariant
            n == adj.len(),
            n >= 1,
            rows_cover(adj@),
            positive_walks_fit(adj@),
            start == 0,
            p.len() == count,
            1 <= count <= n,
            p[0] == 0,
            p.last() == curr_pos,
            p.no_duplicates(),
            in_range(adj@, p),
            positive_steps(adj@, p),
            row@ == adj@[curr_pos as int]@,
            (curr_pos as int) < n,
            visited@ == old(visited)@,
            visited.len() == n,
            forall|k: int| 0 <= k < n ==> (visited@[k] <==> p.contains(k as usize)),
            cost == path_cost(adj@, p),
            count == n ==> weight(adj@, curr_pos as int, 0) <= 0,
            city <= n,
            *best_cost <= old_best,
            old_best == *old(best_cost),
            forall|t: Seq<usize>|
                is_positive_tour(adj@, t) && #[trigger] t.take(count as int) == p && (t[count as int]
                    as int) < city ==> *best_cost <= tour_cost(adj@, t),
            *best_cost == old_best || exists|t: Seq<usize>|
                is_positive_tour(adj@, t) && #[trigger] t.take(count as int) == p && tour_cost(
                    adj@,
                    t,
                ) == *best_cost,
        decreases n - city,
    {
        if !visited[city] && row[city] > 0 {
            let ghost q = p.push(city);
            proof {
                assert(!p.contains(city));
                assert(q.no_duplicates());
                assert(in_range(adj@, q));
                lemma_distinct_cities_len(q, n as nat);
                assert(positive_steps(adj@, q)) by {
                    assert forall|i: int| 0 <= i < q.len() - 1 implies #[trigger] weight(
                        adj@,
                        q[i] as int,
                        q[i + 1] as int,
                    ) > 0 by {
                        if i < p.len() - 1 {
                            assert(weight(adj@, p[i] as int, p[i + 1] as int) > 0);
                        }
                    }
                }
                lemma_path_cost_push(adj@, p, city);
                lemma_positive_path_nonneg(adj@, q);
                assert(is_positive_walk(adj@, q));
            }
            visited.set(city, true);
            proof {
                assert forall|k: int| 0 <= k < n implies (visited@[k] <==> q.contains(
                    k as usize,
                )) by {
                    if q.contains(k as usize) && k != city {
                        let t = choose|t: int| 0 <= t < q.len() && q[t] == k as usize;
                        assert(t < p.len());
                        assert(p[t] == k as usize);
                    }
                    if p.contains(k as usize) {
                        let t = choose|t: int| 0 <= t < p.len() && p[t] == k as usize;
                        assert(q[t] == k as usize);
                    }
                    assert(q[p.len() as int] == city);
                }
            }
            let ghost before = *best_cost;
            tsp_backtrack_req(
                adj,
                visited,
                city,
                count + 1,
                cost + row[city],
                best_cost,
                start,
                Ghost(q),
            );
            proof {
                assert forall|t: Seq<usize>|
                    is_positive_tour(adj@, t) && #[trigger] t.take(count as int) == p && (t[count as int]
                        as int) < city + 1 implies *best_cost <= tour_cost(adj@, t) by {
                    if t[count as int] == city {
                        assert(t.take(count + 1) =~= q);
                    }
                }
                if *best_cost != before {
                    let t = choose|t: Seq<usize>|
                        is_positive_tour(adj@, t) && #[trigger] t.take(count + 1) == q && tour_cost(
                            adj@,
                            t,
                        ) == *best_cost;
                    assert(t.take(count as int) =~= p);
                }
            }
            visited.set(city, false);
            proof {
                assert(visited@ =~= old(visited)@);
            }
        } else {
            proof {
                assert forall|t: Seq<usize>|
                    is_positive_tour(adj@, t) && #[trigger] t.take(count as int) == p && (t[count as int]
                        as int) < city + 1 implies *best_cost <= tour_cost(adj@, t) by {
                    if t[count as int] == city {
                        assert(count < n);
                        assert(t.take(count as int)[count - 1] == curr_pos);
                        let i = count - 1;
                        assert(weight(adj@, t[i] as int, t[i + 1] as int) > 0);
                        if p.contains(city) {
                            let k = choose|k: int| 0 <= k < p.len() && p[k] == city;
                            assert(t[k] == city);
                        }
                    }
                }
            }
        }
        city = city + 1;
    }
    proof {
        assert forall|t: Seq<usize>|
            is_positive_tour(adj@, t) && #[trigger] t.take(count as int) == p implies *best_cost
            <= tour_cost(adj@, t) by {
            if count == n {
                assert(t =~= t.take(count as int));
            } else {
                assert((t[count as int] as int) < n);
            }
        }
    }
}

/// The length of a shortest round trip from city 0 through every city,
/// found by exhaustive search over the tours whose every step has a strictly
/// positive distance; `i32::MAX` when there is no such tour.
pub fn tsp_backtrack(adj: &Vec<Vec<i32>>) -> (r: i32)
    requires
        adj.len() >= 1,
        rows_cover(adj@),
        positive_walks_fit(adj@),
    ensures
        forall|t: Seq<usize>| is_positive_tour(adj@, t) ==> r <= tour_cost(adj@, t),
        r == i32::MAX || exists|t: Seq<usize>| is_positive_tour(adj@, t) && tour_cost(adj@, t) == r,
{
    let n = adj.len();
    let mut visited: Vec<bool> = Vec::new();
    let mut c: usize = 0;
    while c < n
        invariant
            c <= n,
            visited.len() == c,
            forall|k: int| 0 <= k < c ==> !visited@[k],
        decreases n - c,
    {
        visited.push(false);
        c = c + 1;
    }
    visited.set(0, true);
    let mut best_cost = i32::MAX;
    let ghost p = seq![0usize];
    proof {
        assert forall|k: int| 0 <= k < n implies (visited@[k] <==> p.contains(k as usize)) by {
            if k == 0 {
                assert(p[0] == 0);
            }
        }
    }
    tsp_backtrack_req(adj, &mut visited, 0, 1, 0, &mut best_cost, 0, Ghost(p));
    proof {
        assert forall|t: Seq<usize>| is_positive_tour(adj@, t) implies best_cost <= tour_cost(
            adj@,
            t,
        ) by {
            assert(t.take(1) =~= p);
        }
    }
    best_cost
}


// ---------------------------------------------------------------------------
// Random instances
// ---------------------------------------------------------------------------

/// A random `count` x `count` distance matrix whose entries are drawn from
/// `5..50`.
pub fn generate_cities_matrix(count: usize) -> (m: Vec<Vec<i32>>)
    ensures
        m.len() == count,
        forall|i: int| 0 <= i < count ==> #[trigger] m@[i]@.len() == count,
        forall|i: int, j: int| 0 <= i < count && 0 <= j < count ==> 5 <= #[trigger] m@[i]@[j] < 50,
{
    broadcast use vstd::seq_lib::to_multiset_contains;
    let mut rng = crate::random::thread_rng();
    let mut matrix: Vec<Vec<i32>> = Vec::new();
    let mut i: usize = 0;
    while i < count
        invariant
            i <= count,
            matrix.len() == i,
            forall|a: int| 0 <= a < i ==> #[trigger] matrix@[a]@.len() == count,
            forall|a: int, b: int|
                0 <= a < i && 0 <= b < count ==> 5 <= #[trigger] matrix@[a]@[b] < 50,
        decreases count - i,
    {
        let mut nums: Vec<i32> = Vec::new();
        let mut v: i32 = 5;
        while v < 50
            invariant
                5 <= v <= 50,
                nums.len() == v - 5,
                forall|k: int| 0 <= k < nums.len() ==> 5 <= #[trigger] nums@[k] < 50,
            decreases 50 - v,
        {
            nums.push(v);
            v = v + 1;
        }
        let ghost sorted = nums@;
        shuffle_i32(&mut nums, &mut rng);
        let mut row: Vec<i32> = Vec::new();
        let mut j: usize = 0;
        while j < count
            invariant
                j <= count,
                row.len() == j,
                nums@.len() == 45,
                nums@.to_multiset() == sorted.to_multiset(),
                forall|k: int| 0 <= k < sorted.len() ==> 5 <= #[trigger] sorted[k] < 50,
                forall|b: int| 0 <= b < j ==> 5 <= #[trigger] row@[b] < 50,
            decreases count - j,
        {
            let picked = choose_i32(&nums, &mut rng);
            let val = match picked {
                Some(x) => x,
                None => 5,
            };
            proof {
                if let Some(x) = picked {
                    assert(nums@.contains(x));
                    vstd::seq_lib::to_multiset_contains(nums@, x);
                    vstd::seq_lib::to_multiset_contains(sorted, x);
                    assert(sorted.to_multiset().count(x) > 0);
                    assert(sorted.contains(x));
                }
            }
            row.push(val);
            j = j + 1;
        }
        matrix.push(row);
        i = i + 1;
    }
    matrix
}


// ---------------------------------------------------------------------------
// Branch and bound
// ---------------------------------------------------------------------------

/// Every step of the walk `p` goes along a non-zero distance.
pub open spec fn nonzero_steps(adj: Seq<Vec<i32>>, p: Seq<usize>) -> bool {
    forall|i: int|
        0 <= i < p.len() - 1 ==> #[trigger] weight(adj, p[i] as int, p[i + 1] as int) != 0
}

/// A tour that the branch and bound search can take: every city once from
/// city 0, each step and the return to city 0 along a non-zero distance.
pub open spec fn is_nonzero_tour(adj: Seq<Vec<i32>>, t: Seq<usize>) -> bool {
    &&& t.len() == adj.len()
    &&& t.len() >= 1
    &&& t[0] == 0
    &&& t.no_duplicates()
    &&& in_range(adj, t)
    &&& nonzero_steps(adj, t)
    &&& weight(adj, t.last() as int, 0) != 0
}

/// What the branch and bound search reports: nothing found (`i32::MAX` and
/// an empty path), or a tour taken by the search, closed by a return to city
/// 0, together with its length.
pub open spec fn branch_bound_found(adj: Seq<Vec<i32>>, cost: int, path: Seq<usize>) -> bool {
    (cost == i32::MAX && path.len() == 0) || exists|t: Seq<usize>|
        is_nonzero_tour(adj, t) && path == t.push(0) && cost == tour_cost(adj, t) && cost < i32::MAX
}

/// Half of `x`, rounded toward zero (as integer division does it).
pub open spec fn half_toward_zero(x: int) -> int {
    if x >= 0 {
        x / 2
    } else {
        -((-x) / 2)
    }
}

/// The distance from city `c` to its nearest other city (what `first_min`
/// gives).
pub open spec fn nearest_dist(adj: Seq<Vec<i32>>, c: int) -> int {
    row_min_except(adj[c]@, set![c], adj.len() as int)
}

/// The second nearest distance of city `c` (what `second_min` gives).
pub open spec fn second_dist(adj: Seq<Vec<i32>>, c: int) -> int {
    second_min_value(adj[c]@, c, adj.len() as int)
}

/// The sum over the first `k` cities of their nearest and second nearest
/// distances.
pub open spec fn bound_total(adj: Seq<Vec<i32>>, k: int) -> int
    decreases k,
{
    if k <= 0 {
        0
    } else {
        bound_total(adj, k - 1) + nearest_dist(adj, k - 1) + second_dist(adj, k - 1)
    }
}

/// The branch and bound search from the partial tour `p` of length `w`, with
/// the bound `bound`, where `res` and `path` are the best round trip found so
/// far; gives the best round trip at its end. A complete `p` whose return to
/// its first city has a non-zero distance and makes a shorter round trip
/// than `res` replaces it; else the search tries, in order, each unvisited
/// city at a non-zero distance, whose bound is lowered by half (rounded
/// toward zero) of the nearest distance of the new city plus the nearest
/// (at the first step) or second nearest distance of the last city, and goes
/// on with it only while that bound plus the length stays below the best.
pub open spec fn tsp_bb_search(
    adj: Seq<Vec<i32>>,
    bound: int,
    w: int,
    p: Seq<usize>,
    res: int,
    path: Seq<usize>,
) -> (int, Seq<usize>)
    decreases adj.len() - p.len(), adj.len() + 1,
{
    if p.len() < 1 || p.len() > adj.len() {
        (res, path)
    } else if p.len() == adj.len() {
        let back = weight(adj, p.last() as int, p[0] as int);
        if back != 0 && w + back < res {
            (w + back, p.push(p[0]))
        } else {
            (res, path)
        }
    } else {
        tsp_bb_tries(adj, bound, w, p, 0, res, path)
    }
}

/// The branch and bound search extending the partial tour `p` by each of
/// the cities `i..` in turn, from the best round trip `res` and `path`.
pub open spec fn tsp_bb_tries(
    adj: Seq<Vec<i32>>,
    bound: int,
    w: int,
    p: Seq<usize>,
    i: int,
    res: int,
    path: Seq<usize>,
) -> (int, Seq<usize>)
    decreases adj.len() - p.len(), adj.len() - i,
{
    if p.len() < 1 || p.len() >= adj.len() || i < 0 || i >= adj.len() {
        (res, path)
    } else {
        let last = p.last() as int;
        if weight(adj, last, i) != 0 && !p.contains(i as usize) {
            let w2 = w + weight(adj, last, i);
            let b2 = bound - half_toward_zero(
                if p.len() == 1 {
                    nearest_dist(adj, last) + nearest_dist(adj, i)
                } else {
                    second_dist(adj, last) + nearest_dist(adj, i)
                },
            );
            if b2 + w2 < res {
                let (r2, q2) = tsp_bb_search(adj, b2, w2, p.push(i as usize), res, path);
                tsp_bb_tries(adj, bound, w, p, i + 1, r2, q2)
            } else {
                tsp_bb_tries(adj, bound, w, p, i + 1, res, path)
            }
        } else {
            tsp_bb_tries(adj, bound, w, p, i + 1, res, path)
        }
    }
}

/// What branch and bound gives on the matrix: the search from city 0, with
/// half (rounded toward zero) of one plus the sum of every city's nearest and
/// second nearest distances as the bound, and nothing found yet.
pub open spec fn tsp_bb_result(adj: Seq<Vec<i32>>) -> (int, Seq<usize>) {
    tsp_bb_search(
        adj,
        half_toward_zero(bound_total(adj, adj.len() as int) + 1),
        0,
        seq![0usize],
        i32::MAX as int,
        Seq::empty(),
    )
}

/// `x` fits in an `i32`.
pub open spec fn in_i32(x: int) -> bool {
    i32::MIN <= x <= i32::MAX
}

/// A partial tour that the branch and bound search can take: from city 0,
/// no city twice, every step along a non-zero distance.
pub open spec fn is_nonzero_walk(adj: Seq<Vec<i32>>, q: Seq<usize>) -> bool {
    &&& q.len() >= 1
    &&& q[0] == 0
    &&& q.no_duplicates()
    &&& in_range(adj, q)
    &&& nonzero_steps(adj, q)
}

/// The pair of nearest distances whose half the search takes off its bound
/// for the last step of `q`: the nearest distances of both cities at the
/// first step, else the second nearest distance of the city left and the
/// nearest distance of the city reached.
pub open spec fn step_pair(adj: Seq<Vec<i32>>, q: Seq<usize>) -> int {
    let from = q[q.len() - 2] as int;
    let to = q.last() as int;
    if q.len() == 2 {
        nearest_dist(adj, from) + nearest_dist(adj, to)
    } else {
        second_dist(adj, from) + nearest_dist(adj, to)
    }
}

/// What the search takes off its bound along the partial tour `q`: half
/// (rounded toward zero) of the pair of each step.
pub open spec fn bound_drop(adj: Seq<Vec<i32>>, q: Seq<usize>) -> int
    decreases q.len(),
{
    if q.len() <= 1 {
        0
    } else {
        bound_drop(adj, q.drop_last()) + half_toward_zero(step_pair(adj, q))
    }
}

/// The bound that the search holds at the partial tour `q` from city 0: the
/// starting bound less what the steps of `q` take off.
pub open spec fn bb_bound(adj: Seq<Vec<i32>>, q: Seq<usize>) -> int {
    half_toward_zero(bound_total(adj, adj.len() as int) + 1) - bound_drop(adj, q)
}

/// Every value that the branch and bound search computes fits in an `i32`:
/// each city's nearest plus second nearest distance and their running sum
/// (and that sum plus one); at every partial tour it can take, the length,
/// the pair of the last step, the bound, and the bound plus the length; and
/// the length of every round trip it can close.
pub open spec fn branch_bound_fits(adj: Seq<Vec<i32>>) -> bool {
    &&& forall|k: int|
        0 <= k < adj.len() ==> in_i32(nearest_dist(adj, k) + second_dist(adj, k)) && in_i32(
            #[trigger] bound_total(adj, k + 1),
        )
    &&& in_i32(bound_total(adj, adj.len() as int) + 1)
    &&& forall|q: Seq<usize>|
        #[trigger] is_nonzero_walk(adj, q) && 2 <= q.len() <= adj.len() ==> in_i32(path_cost(adj, q))
            && in_i32(step_pair(adj, q)) && in_i32(bb_bound(adj, q)) && in_i32(
            bb_bound(adj, q) + path_cost(adj, q),
        )
    &&& forall|q: Seq<usize>|
        #[trigger] is_nonzero_walk(adj, q) && q.len() == adj.len() && weight(
            adj,
            q.last() as int,
            0,
        ) != 0 ==> in_i32(path_cost(adj, q) + weight(adj, q.last() as int, 0))
}

/// `q` is a partial tour that the search can reach from the partial tour
/// `p`: it starts with `p`, has no city twice, and each step it adds goes
/// along a non-zero distance.
pub open spec fn is_extension(adj: Seq<Vec<i32>>, p: Seq<usize>, q: Seq<usize>) -> bool {
    &&& 1 <= p.len() <= q.len() <= adj.len()
    &&& q.take(p.len() as int) == p
    &&& q.no_duplicates()
    &&& in_range(adj, q)
    &&& forall|k: int|
        p.len() - 1 <= k < q.len() - 1 ==> #[trigger] weight(adj, q[k] as int, q[k + 1] as int) != 0
}

/// The length that the search holds at the extension `q` of `p`, when it
/// held `w` at `p`.
pub open spec fn ext_weight(adj: Seq<Vec<i32>>, w: int, p: Seq<usize>, q: Seq<usize>) -> int {
    w + path_cost(adj, q) - path_cost(adj, p)
}

/// The bound that the search holds at the extension `q` of `p`, when it held
/// `b` at `p`.
pub open spec fn ext_bound(adj: Seq<Vec<i32>>, b: int, p: Seq<usize>, q: Seq<usize>) -> int {
    b - bound_drop(adj, q) + bound_drop(adj, p)
}

/// Every value that the search computes from the partial tour `p`, with
/// bound `b` and length `w`, fits in an `i32`: at every extension, the
/// length, the pair of the last step, the bound, and the bound plus the
/// length; and the length of every round trip it can close.
pub open spec fn search_fits(adj: Seq<Vec<i32>>, b: int, w: int, p: Seq<usize>) -> bool {
    &&& forall|q: Seq<usize>|
        #[trigger] is_extension(adj, p, q) && q.len() > p.len() ==> in_i32(ext_weight(adj, w, p, q))
            && in_i32(step_pair(adj, q)) && in_i32(ext_bound(adj, b, p, q)) && in_i32(
            ext_bound(adj, b, p, q) + ext_weight(adj, w, p, q),
        )
    &&& forall|q: Seq<usize>|
        #[trigger] is_extension(adj, p, q) && q.len() == adj.len() && weight(
            adj,
            q.last() as int,
            q[0] as int,
        ) != 0 ==> in_i32(ext_weight(adj, w, p, q) + weight(adj, q.last() as int, q[0] as int))
}

/// How the search from the partial tour `p` with length `w` leaves its best
/// round trip: its length never grows; the trip stays as it was while the
/// length stays; a shorter length comes with a round trip through every
/// city that extends `p`, closed by a non-zero step back to its first city,
/// whose length is that length.
pub open spec fn tour_update(
    adj: Seq<Vec<i32>>,
    w: int,
    p: Seq<usize>,
    res0: int,
    path0: Seq<usize>,
    res: int,
    path: Seq<usize>,
) -> bool {
    &&& res <= res0
    &&& res == res0 ==> path == path0
    &&& res < res0 ==> exists|t: Seq<usize>|
        #[trigger] is_extension(adj, p, t) && t.len() == adj.len() && weight(
            adj,
            t.last() as int,
            t[0] as int,
        ) != 0 && path == t.push(t[0]) && res == ext_weight(adj, w, p, t) + weight(
            adj,
            t.last() as int,
            t[0] as int,
        )
}

proof fn lemma_extension_trans(adj: Seq<Vec<i32>>, p: Seq<usize>, q: Seq<usize>, r: Seq<usize>)
    requires
        is_extension(adj, p, q),
        is_extension(adj, q, r),
    ensures
        is_extension(adj, p, r),
{
    assert(r.take(p.len() as int) =~= q.take(p.len() as int));
    assert forall|k: int| p.len() - 1 <= k < r.len() - 1 implies #[trigger] weight(
        adj,
        r[k] as int,
        r[k + 1] as int,
    ) != 0 by {
        if k < q.len() - 1 {
            assert(r[k] == r.take(q.len() as int)[k]);
            assert(r[k + 1] == r.take(q.len() as int)[k + 1]);
            assert(weight(adj, q[k] as int, q[k + 1] as int) != 0);
        }
    }
}

/// What the search can compute from an extension `q` of `p` fits wherever
/// what it can compute from `p` fits.
proof fn lemma_search_fits_step(adj: Seq<Vec<i32>>, b: int, w: int, p: Seq<usize>, q: Seq<usize>)
    requires
        search_fits(adj, b, w, p),
        is_extension(adj, p, q),
    ensures
        search_fits(adj, ext_bound(adj, b, p, q), ext_weight(adj, w, p, q), q),
{
    let b2 = ext_bound(adj, b, p, q);
    let w2 = ext_weight(adj, w, p, q);
    assert forall|r: Seq<usize>| #[trigger] is_extension(adj, q, r) && r.len() > q.len() implies in_i32(
        ext_weight(adj, w2, q, r),
    ) && in_i32(step_pair(adj, r)) && in_i32(ext_bound(adj, b2, q, r)) && in_i32(
        ext_bound(adj, b2, q, r) + ext_weight(adj, w2, q, r),
    ) by {
        lemma_extension_trans(adj, p, q, r);
    }
    assert forall|r: Seq<usize>|
        #[trigger] is_extension(adj, q, r) && r.len() == adj.len() && weight(
            adj,
            r.last() as int,
            r[0] as int,
        ) != 0 implies in_i32(ext_weight(adj, w2, q, r) + weight(adj, r.last() as int, r[0] as int)) by {
        lemma_extension_trans(adj, p, q, r);
    }
}

fn tsp_branch_bound_req(
    adj: &Vec<Vec<i32>>,
    curr_bound: i32,
    curr_weight: i32,
    level: usize,
    curr_path: &mut Vec<usize>,
    visited: &mut Vec<bool>,
    final_res: &mut i32,
    final_path: &mut Vec<usize>,
    Ghost(p): Ghost<Seq<usize>>,
)
    requires
        adj.len() >= 1,
        rows_cover(adj@),
        1 <= level <= adj.len(),
        p.len() == level,
        p.no_duplicates(),
        in_range(adj@, p),
        old(curr_path).len() == adj.len(),
        old(curr_path)@.take(level as int) == p,
        forall|k: int| level <= k < adj.len() ==> old(curr_path)@[k] == usize::MAX,
        old(visited).len() == adj.len(),
        forall|k: int| 0 <= k < adj.len() ==> (old(visited)@[k] <==> p.contains(k as usize)),
        search_fits(adj@, curr_bound as int, curr_weight as int, p),
    ensures
        final(curr_path)@ == old(curr_path)@,
        final(visited)@ == old(visited)@,
        *final(final_res) <= *old(final_res),
        (*final(final_res) as int, final(final_path)@) == tsp_bb_search(
            adj@,
            curr_bound as int,
            curr_weight as int,
            p,
            *old(final_res) as int,
            old(final_path)@,
        ),
        tour_update(
            adj@,
            curr_weight as int,
            p,
            *old(final_res) as int,
            old(final_path)@,
            *final(final_res) as int,
            final(final_path)@,
        ),
    decreases adj.len() - level,
{
    let n = adj.len();
    let last = curr_path[level - 1];
    assert(last == p[level - 1]);
    let row = &adj[last];
    if level == n {
        let first = curr_path[0];
        assert(first == p[0]);
        if row[first] != 0 {
            proof {
                assert(p.take(p.len() as int) =~= p);
                assert(is_extension(adj@, p, p));
                assert(p.last() == last);
            }
            let curr_res = curr_weight + row[first];
            if curr_res < *final_res {
                *final_res = curr_res;
                final_path.clear();
                let mut k: usize = 0;
                while k < n
                    invariant
                        n == curr_path.len(),
                        k <= n,
                        final_path@ == curr_path@.take(k as int),
                    decreases n - k,
                {
                    final_path.push(curr_path[k]);
                    assert(final_path@ =~= curr_path@.take(k + 1));
                    k = k + 1;
                }
                final_path.push(first);
                proof {
                    assert(curr_path@.take(n as int) =~= curr_path@);
                    assert(curr_path@ =~= p);
                    assert(final_path@ =~= p.push(p[0]));
                    assert(curr_res == ext_weight(adj@, curr_weight as int, p, p) + weight(
                        adj@,
                        p.last() as int,
                        p[0] as int,
                    ));
                }
            }
        }
        return;
    }
    let ghost old_path = curr_path@;
    let ghost old_visited = visited@;
    let ghost res0 = *final_res as int;
    let ghost path0 = final_path@;
    proof {
        assert(tsp_bb_search(adj@, curr_bound as int, curr_weight as int, p, res0, path0)
            == tsp_bb_tries(adj@, curr_bound as int, curr_weight as int, p, 0, res0, path0));
    }
    let mut i: usize = 0;
    while i < n
        invariant
            res0 == *old(final_res) as int,
            path0 == old(final_path)@,
            tour_update(adj@, curr_weight as int, p, res0, path0, *final_res as int, final_path@),
            tsp_bb_tries(adj@, curr_bound as int, curr_weight as int, p, i as int, *final_res as int, final_path@)
                == tsp_bb_search(adj@, curr_bound as int, curr_weight as int, p, res0, path0),
            n == adj.len(),
            rows_cover(adj@),
            search_fits(adj@, curr_bound as int, curr_weight as int, p),
            1 <= level < n,
            p.len() == level,
            p.no_duplicates(),
            in_range(adj@, p),
            (last as int) < n,
            last == p[level - 1],
            row@ == adj@[last as int]@,
            curr_path@ == old_path,
            old_path == old(curr_path)@,
            old_path.len() == n,
            old_path.take(level as int) == p,
            forall|k: int| level <= k < n ==> old_path[k] == usize::MAX,
            visited@ == old_visited,
            old_visited == old(visited)@,
            visited.len() == n,
            forall|k: int| 0 <= k < n ==> (visited@[k] <==> p.contains(k as usize)),
            *final_res <= *old(final_res),
            i <= n,
        decreases n - i,
    {
        if row[i] != 0 && !visited[i] {
            let ghost q = p.push(i);
            proof {
                assert(!p.contains(i));
                assert(q.no_duplicates());
                assert(in_range(adj@, q));
                assert(q.take(p.len() as int) =~= p);
                assert(is_extension(adj@, p, q));
                lemma_search_fits_step(adj@, curr_bound as int, curr_weight as int, p, q);
                lemma_distinct_cities_len(q, n as nat);
                lemma_path_cost_push(adj@, p, i);
                assert(q.drop_last() =~= p);
                assert(q[q.len() - 2] == last);
            }
            let mut curr_bound_new = curr_bound;
            let curr_weight_new = curr_weight + row[i];
            let fi = first_min(adj, i);
            if level == 1 {
                let fl = first_min(adj, last);
                let pair = fl + fi;
                let half = pair / 2;
                curr_bound_new = curr_bound_new - half;
            } else {
                let sl = second_min(adj, last);
                let pair = sl + fi;
                let half = pair / 2;
                curr_bound_new = curr_bound_new - half;
            }
            proof {
                assert(curr_bound_new == ext_bound(adj@, curr_bound as int, p, q));
                assert(curr_weight_new == ext_weight(adj@, curr_weight as int, p, q));
            }
            if curr_bound_new + curr_weight_new < *final_res {
                curr_path.set(level, i);
                visited.set(i, true);
                proof {
                    assert(curr_path@.take(level + 1) =~= q);
                    assert forall|k: int| 0 <= k < n implies (visited@[k] <==> q.contains(
                        k as usize,
                    )) by {
                        if q.contains(k as usize) && k != i {
                            let t = choose|t: int| 0 <= t < q.len() && q[t] == k as usize;
                            assert(t < p.len());
                            assert(p[t] == k as usize);
                        }
                        if p.contains(k as usize) {
                            let t = choose|t: int| 0 <= t < p.len() && p[t] == k as usize;
                            assert(q[t] == k as usize);
                        }
                        assert(q[p.len() as int] == i);
                    }
                }
                let ghost res_before = *final_res as int;
                tsp_branch_bound_req(
                    adj,
                    curr_bound_new,
                    curr_weight_new,
                    level + 1,
                    curr_path,
                    visited,
                    final_res,
                    final_path,
                    Ghost(q),
                );
                proof {
                    if *final_res < res0 {
                        if *final_res < res_before {
                            let t = choose|t: Seq<usize>|
                                #[trigger] is_extension(adj@, q, t) && t.len() == adj.len() && weight(
                                    adj@,
                                    t.last() as int,
                                    t[0] as int,
                                ) != 0 && final_path@ == t.push(t[0]) && *final_res == ext_weight(
                                    adj@,
                                    curr_weight_new as int,
                                    q,
                                    t,
                                ) + weight(adj@, t.last() as int, t[0] as int);
                            lemma_extension_trans(adj@, p, q, t);
                        }
                    }
                }
            }
            visited.set(i, false);
            curr_path.set(level, usize::MAX);
            proof {
                assert(!p.contains(i));
                assert(visited@ =~= old_visited);
                assert(level < old_path.len());
                assert(old_path[level as int] == usize::MAX);
                assert(curr_path@ =~= old_path);
            }
        }
        i = i + 1;
    }
}


/// From city 0, with the starting bound and nothing walked yet, what the
/// search can compute fits wherever `branch_bound_fits` says it does.
proof fn lemma_search_fits_start(adj: Seq<Vec<i32>>)
    requires
        adj.len() >= 1,
        branch_bound_fits(adj),
    ensures
        search_fits(adj, half_toward_zero(bound_total(adj, adj.len() as int) + 1), 0, seq![0usize]),
{
    let p = seq![0usize];
    let b = half_toward_zero(bound_total(adj, adj.len() as int) + 1);
    assert(path_cost(adj, p) == 0);
    assert(bound_drop(adj, p) == 0);
    assert forall|q: Seq<usize>| #[trigger] is_extension(adj, p, q) implies is_nonzero_walk(adj, q)
        && ext_weight(adj, 0, p, q) == path_cost(adj, q) && ext_bound(adj, b, p, q) == bb_bound(
        adj,
        q,
    ) by {
        assert(q[0] == q.take(1)[0]);
    }
}

/// A round trip that the search from city 0 closes is a tour that it can
/// take.
proof fn lemma_closed_from_start(adj: Seq<Vec<i32>>, t: Seq<usize>)
    requires
        is_extension(adj, seq![0usize], t),
        t.len() == adj.len(),
        weight(adj, t.last() as int, t[0] as int) != 0,
    ensures
        is_nonzero_tour(adj, t),
        t[0] == 0,
        ext_weight(adj, 0, seq![0usize], t) + weight(adj, t.last() as int, t[0] as int) == tour_cost(
            adj,
            t,
        ),
{
    assert(t[0] == t.take(1)[0]);
    assert(path_cost(adj, seq![0usize]) == 0);
}

/// The shortest round trip found by branch and bound: depth-first search
/// from city 0 along non-zero distances, cutting off a partial tour once its
/// length plus a bound drawn from each city's two nearest distances reaches
/// the best round trip found so far. Returns the length of the best round
/// trip found and that trip, closed by a return to city 0; `i32::MAX` and an
/// empty trip when none is found.
pub fn tsp_branch_bound(adj: &Vec<Vec<i32>>) -> (r: (i32, Vec<usize>))
    requires
        adj.len() >= 1,
        rows_cover(adj@),
        branch_bound_fits(adj@),
    ensures
        (r.0 as int, r.1@) == tsp_bb_result(adj@),
        branch_bound_found(adj@, r.0 as int, r.1@),
{
    let n = adj.len();
    let mut curr_path: Vec<usize> = Vec::new();
    let mut visited: Vec<bool> = Vec::new();
    let mut c: usize = 0;
    while c < n
        invariant
            c <= n,
            curr_path.len() == c,
            visited.len() == c,
            forall|k: int| 0 <= k < c ==> curr_path@[k] == usize::MAX && !visited@[k],
        decreases n - c,
    {
        curr_path.push(usize::MAX);
        visited.push(false);
        c = c + 1;
    }
    let mut curr_bound: i32 = 0;
    let mut i: usize = 0;
    while i < n
        invariant
            n == adj.len(),
            rows_cover(adj@),
            branch_bound_fits(adj@),
            i <= n,
            curr_bound == bound_total(adj@, i as int),
        decreases n - i,
    {
        let fm = first_min(adj, i);
        let sm = second_min(adj, i);
        proof {
            assert(in_i32(bound_total(adj@, i + 1)));
        }
        curr_bound = curr_bound + (fm + sm);
        i = i + 1;
    }
    curr_bound = (curr_bound + 1) / 2;
    let mut final_res = i32::MAX;
    let mut final_path: Vec<usize> = Vec::new();
    curr_path.set(0, 0);
    visited.set(0, true);
    let ghost p = seq![0usize];
    proof {
        assert(curr_path@.take(1) =~= p);
        assert forall|k: int| 0 <= k < n implies (visited@[k] <==> p.contains(k as usize)) by {
            if k == 0 {
                assert(p[0] == 0);
            }
        }
    }
    assert(final_path@ =~= Seq::<usize>::empty());
    proof {
        lemma_search_fits_start(adj@);
    }
    tsp_branch_bound_req(
        adj,
        curr_bound,
        0,
        1,
        &mut curr_path,
        &mut visited,
        &mut final_res,
        &mut final_path,
        Ghost(p),
    );
    proof {
        if final_res < i32::MAX {
            let t = choose|t: Seq<usize>|
                #[trigger] is_extension(adj@, p, t) && t.len() == adj.len() && weight(
                    adj@,
                    t.last() as int,
                    t[0] as int,
                ) != 0 && final_path@ == t.push(t[0]) && final_res == ext_weight(adj@, 0, p, t)
                    + weight(adj@, t.last() as int, t[0] as int);
            lemma_closed_from_start(adj@, t);
        }
    }
    (final_res, final_path)
}

/// The search never raises its best round trip's length.
proof fn lemma_search_le(adj: Seq<Vec<i32>>, b: int, w: int, p: Seq<usize>, res: int, path: Seq<usize>)
    ensures
        tsp_bb_search(adj, b, w, p, res, path).0 <= res,
    decreases adj.len() - p.len(), adj.len() + 1,
{
    if 1 <= p.len() < adj.len() {
        lemma_tries_le(adj, b, w, p, 0, res, path);
    }
}

proof fn lemma_tries_le(
    adj: Seq<Vec<i32>>,
    b: int,
    w: int,
    p: Seq<usize>,
    i: int,
    res: int,
    path: Seq<usize>,
)
    ensures
        tsp_bb_tries(adj, b, w, p, i, res, path).0 <= res,
    decreases adj.len() - p.len(), adj.len() - i,
{
    if 1 <= p.len() < adj.len() && 0 <= i < adj.len() {
        let last = p.last() as int;
        if weight(adj, last, i) != 0 && !p.contains(i as usize) {
            let w2 = w + weight(adj, last, i);
            let b2 = b - half_toward_zero(
                if p.len() == 1 {
                    nearest_dist(adj, last) + nearest_dist(adj, i)
                } else {
                    second_dist(adj, last) + nearest_dist(adj, i)
                },
            );
            if b2 + w2 < res {
                let (r2, q2) = tsp_bb_search(adj, b2, w2, p.push(i as usize), res, path);
                lemma_search_le(adj, b2, w2, p.push(i as usize), res, path);
                lemma_tries_le(adj, b, w, p, i + 1, r2, q2);
            } else {
                lemma_tries_le(adj, b, w, p, i + 1, res, path);
            }
        } else {
            lemma_tries_le(adj, b, w, p, i + 1, res, path);
        }
    }
}

/// Every partial tour of `t` beyond `p` passes the bound test against `r`:
/// its bound plus its length stays below `r`.
pub open spec fn prefixes_pass(
    adj: Seq<Vec<i32>>,
    b: int,
    w: int,
    p: Seq<usize>,
    t: Seq<usize>,
    r: int,
) -> bool {
    forall|k: int|
        p.len() < k <= t.len() ==> ext_bound(adj, b, p, #[trigger] t.take(k)) + ext_weight(
            adj,
            w,
            p,
            t.take(k),
        ) < r
}

/// From the partial tour `p`, the search ends with a round trip no longer
/// than any round trip `t` that extends `p` and whose partial tours all pass
/// the bound test against the length it ends with.
proof fn lemma_search_reaches(
    adj: Seq<Vec<i32>>,
    b: int,
    w: int,
    p: Seq<usize>,
    res: int,
    path: Seq<usize>,
    t: Seq<usize>,
)
    requires
        is_extension(adj, p, t),
        t.len() == adj.len(),
        weight(adj, t.last() as int, t[0] as int) != 0,
        prefixes_pass(adj, b, w, p, t, tsp_bb_search(adj, b, w, p, res, path).0),
    ensures
        tsp_bb_search(adj, b, w, p, res, path).0 <= ext_weight(adj, w, p, t) + weight(
            adj,
            t.last() as int,
            t[0] as int,
        ),
    decreases adj.len() - p.len(), adj.len() + 1,
{
    if p.len() == adj.len() {
        assert(t =~= p);
    } else {
        lemma_tries_reaches(adj, b, w, p, 0, res, path, t);
    }
}

proof fn lemma_tries_reaches(
    adj: Seq<Vec<i32>>,
    b: int,
    w: int,
    p: Seq<usize>,
    i: int,
    res: int,
    path: Seq<usize>,
    t: Seq<usize>,
)
    requires
        p.len() < adj.len(),
        is_extension(adj, p, t),
        t.len() == adj.len(),
        weight(adj, t.last() as int, t[0] as int) != 0,
        0 <= i <= t[p.len() as int],
        prefixes_pass(adj, b, w, p, t, tsp_bb_tries(adj, b, w, p, i, res, path).0),
    ensures
        tsp_bb_tries(adj, b, w, p, i, res, path).0 <= ext_weight(adj, w, p, t) + weight(
            adj,
            t.last() as int,
            t[0] as int,
        ),
    decreases adj.len() - p.len(), adj.len() - i,
{
    let n = adj.len() as int;
    let m = p.len() as int;
    let j = t[m] as int;
    assert(j < n);
    let r = tsp_bb_tries(adj, b, w, p, i, res, path).0;
    let last = p.last() as int;
    assert(t[m - 1] == t.take(m)[m - 1]);
    assert(last == t[m - 1]);
    let w2 = w + weight(adj, last, i);
    let b2 = b - half_toward_zero(
        if p.len() == 1 {
            nearest_dist(adj, last) + nearest_dist(adj, i)
        } else {
            second_dist(adj, last) + nearest_dist(adj, i)
        },
    );
    if i < j {
        if weight(adj, last, i) != 0 && !p.contains(i as usize) {
            if b2 + w2 < res {
                let (r2, q2) = tsp_bb_search(adj, b2, w2, p.push(i as usize), res, path);
                lemma_tries_reaches(adj, b, w, p, i + 1, r2, q2, t);
            } else {
                lemma_tries_reaches(adj, b, w, p, i + 1, res, path, t);
            }
        } else {
            lemma_tries_reaches(adj, b, w, p, i + 1, res, path, t);
        }
    } else {
        let q = p.push(i as usize);
        assert(q =~= t.take(m + 1));
        let k0 = m - 1;
        assert(weight(adj, t[k0] as int, t[k0 + 1] as int) != 0);
        assert(!p.contains(i as usize)) by {
            if p.contains(i as usize) {
                let x = choose|x: int| 0 <= x < p.len() && p[x] == i as usize;
                assert(t[x] == t.take(m)[x]);
            }
        }
        lemma_path_cost_push(adj, p, i as usize);
        assert(q.drop_last() =~= p);
        assert(w2 == ext_weight(adj, w, p, q));
        assert(b2 == ext_bound(adj, b, p, q));
        assert(b2 + w2 < r);
        lemma_tries_le(adj, b, w, p, i, res, path);
        let (r2, q2) = tsp_bb_search(adj, b2, w2, q, res, path);
        lemma_tries_le(adj, b, w, p, i + 1, r2, q2);
        assert(r <= r2);
        assert(t.take(q.len() as int) == q);
        assert(is_extension(adj, q, t));
        assert forall|k: int| q.len() < k <= t.len() implies ext_bound(
            adj,
            b2,
            q,
            #[trigger] t.take(k),
        ) + ext_weight(adj, w2, q, t.take(k)) < r2 by {
            assert(ext_bound(adj, b, p, t.take(k)) + ext_weight(adj, w, p, t.take(k)) < r);
        }
        lemma_search_reaches(adj, b2, w2, q, res, path, t);
    }
}

/// Branch and bound cuts off a partial tour only on its own bound test:
/// it returns a round trip no longer than any tour from city 0 along
/// non-zero distances whose every partial tour passes the bound test against
/// the returned length (its bound plus its length stays below it). So
/// cutting off one city never keeps the search from the cities after it.
pub proof fn lemma_branch_bound_reaches_passing_tours(adj: Seq<Vec<i32>>, t: Seq<usize>)
    requires
        is_nonzero_tour(adj, t),
        forall|k: int|
            2 <= k <= t.len() ==> bb_bound(adj, #[trigger] t.take(k)) + path_cost(adj, t.take(k))
                < tsp_bb_result(adj).0,
    ensures
        tsp_bb_result(adj).0 <= tour_cost(adj, t),
{
    let p = seq![0usize];
    let b = half_toward_zero(bound_total(adj, adj.len() as int) + 1);
    assert(path_cost(adj, p) == 0);
    assert(bound_drop(adj, p) == 0);
    assert(t.take(1) =~= p);
    assert(is_extension(adj, p, t));
    assert forall|k: int| p.len() < k <= t.len() implies ext_bound(adj, b, p, #[trigger] t.take(k))
        + ext_weight(adj, 0, p, t.take(k)) < tsp_bb_result(adj).0 by {
        assert(bb_bound(adj, t.take(k)) + path_cost(adj, t.take(k)) < tsp_bb_result(adj).0);
    }
    lemma_search_reaches(adj, b, 0, p, i32::MAX as int, Seq::empty(), t);
}

/// Every distance is non-negative.
pub open spec fn nonnegative_distances(adj: Seq<Vec<i32>>) -> bool {
    forall|i: int, j: int| 0 <= i < adj.len() && 0 <= j < adj.len() ==> #[trigger] weight(adj, i, j) >= 0
}

/// On a matrix of non-negative distances, branch and bound never reports a
/// round trip shorter than the exhaustive search: what it reports is a tour
/// that the exhaustive search also takes, and the exhaustive search returns
/// the shortest of those.
pub proof fn lemma_branch_bound_not_below_backtrack(
    adj: Seq<Vec<i32>>,
    exhaustive: int,
    bb_cost: int,
    bb_path: Seq<usize>,
)
    requires
        nonnegative_distances(adj),
        forall|t: Seq<usize>| is_positive_tour(adj, t) ==> exhaustive <= tour_cost(adj, t),
        exhaustive <= i32::MAX,
        branch_bound_found(adj, bb_cost, bb_path),
    ensures
        exhaustive <= bb_cost,
{
    if bb_cost != i32::MAX || bb_path.len() != 0 {
        let t = choose|t: Seq<usize>|
            is_nonzero_tour(adj, t) && bb_path == t.push(0) && bb_cost == tour_cost(adj, t) && bb_cost
                < i32::MAX;
        assert(positive_steps(adj, t)) by {
            assert forall|i: int| 0 <= i < t.len() - 1 implies #[trigger] weight(
                adj,
                t[i] as int,
                t[i + 1] as int,
            ) > 0 by {
                assert(weight(adj, t[i] as int, t[i + 1] as int) != 0);
                assert(weight(adj, t[i] as int, t[i + 1] as int) >= 0);
            }
        }
        assert(weight(adj, t.last() as int, 0) >= 0);
        assert(is_positive_tour(adj, t));
    }
}

/// Every distance between two different cities is positive.
pub open spec fn positive_off_diagonal(adj: Seq<Vec<i32>>) -> bool {
    forall|i: int, j: int|
        0 <= i < adj.len() && 0 <= j < adj.len() && i != j ==> #[trigger] weight(adj, i, j) > 0
}

/// When the distances between different cities are positive, no round trip
/// from city 0 through every city (such as the tours of nearest neighbour
/// and of 2-opt) is shorter than what the exhaustive search returns.
pub proof fn lemma_closed_tour_not_below_backtrack(
    adj: Seq<Vec<i32>>,
    exhaustive: int,
    tour: Seq<usize>,
)
    requires
        adj.len() >= 2,
        positive_off_diagonal(adj),
        forall|t: Seq<usize>| is_positive_tour(adj, t) ==> exhaustive <= tour_cost(adj, t),
        is_closed_tour(adj, tour),
    ensures
        exhaustive <= path_cost(adj, tour),
{
    let n = adj.len() as int;
    let t = tour.take(n);
    assert(t.no_duplicates());
    assert(positive_steps(adj, t)) by {
        assert forall|i: int| 0 <= i < t.len() - 1 implies #[trigger] weight(
            adj,
            t[i] as int,
            t[i + 1] as int,
        ) > 0 by {
            assert(t[i] != t[i + 1]);
            assert(tour[i] == t[i] && tour[i + 1] == t[i + 1]);
        }
    }
    assert(t[n - 1] != t[0]);
    assert(tour[n - 1] == t[n - 1]);
    assert(in_range(adj, t)) by {
        assert forall|k: int| 0 <= k < t.len() implies (#[trigger] t[k] as int) < adj.len() by {
            assert(tour[k] == t[k]);
        }
    }
    assert(weight(adj, t.last() as int, 0) > 0);
    assert(is_positive_tour(adj, t));
    assert(tour.drop_last() =~= t);
}

/// 2-opt keeps a round trip through every city one: a rearrangement of the
/// cities of such a trip that keeps its first and last positions is one.
pub proof fn lemma_two_opt_keeps_closed_tour(adj: Seq<Vec<i32>>, start: Seq<usize>, result: Seq<usize>)
    requires
        is_closed_tour(adj, start),
        result.len() == start.len(),
        result[0] == start[0],
        result[start.len() - 1] == start[start.len() - 1],
        result.to_multiset() == start.to_multiset(),
    ensures
        is_closed_tour(adj, result),
{
    broadcast use {vstd::multiset::group_multiset_properties, vstd::multiset::group_multiset_axioms};
    let n = adj.len() as int;
    let rt = result.take(n);
    let st = start.take(n);
    assert(rt.push(result[n]) =~= result);
    assert(st.push(start[n]) =~= start);
    vstd::seq_lib::to_multiset_build(rt, result[n]);
    vstd::seq_lib::to_multiset_build(st, start[n]);
    assert(rt.to_multiset() =~= st.to_multiset()) by {
        assert forall|x: usize| #[trigger] rt.to_multiset().count(x) == st.to_multiset().count(x) by {
            assert(rt.to_multiset().insert(result[n]).count(x) == st.to_multiset().insert(
                start[n],
            ).count(x));
        }
    }
    st.lemma_multiset_has_no_duplicates();
    rt.lemma_multiset_has_no_duplicates_conv();
    assert forall|k: int| 0 <= k < result.len() implies (#[trigger] result[k] as int) < adj.len() by {
        assert(result.contains(result[k]));
        vstd::seq_lib::to_multiset_contains(result, result[k]);
        vstd::seq_lib::to_multiset_contains(start, result[k]);
        let j = choose|j: int| 0 <= j < start.len() && start[j] == result[k];
        assert((start[j] as int) < adj.len());
    }
}


proof fn lemma_rounds_of_fixpoint(adj: Seq<Vec<i32>>, p: Seq<usize>, n: int, k: nat)
    requires
        two_opt_pass(adj, p, n, 1, 2) == p,
    ensures
        two_opt_rounds(adj, p, n, k) == p,
    decreases k,
{
    if k > 0 {
        lemma_rounds_of_fixpoint(adj, p, n, (k - 1) as nat);
    }
}

/// Running 2-opt again on its result gives that result back: the result is
/// left unchanged by a full pass, so every number of further passes leaves
/// it as it is.
pub proof fn lemma_two_opt_rerun(adj: Seq<Vec<i32>>, first: Seq<usize>, second: Seq<usize>)
    requires
        first.len() >= 1,
        two_opt_pass(adj, first, first.len() - 1, 1, 2) == first,
        exists|k: nat| second == #[trigger] two_opt_rounds(adj, first, first.len() - 1, k),
    ensures
        second == first,
{
    let k = choose|k: nat| second == #[trigger] two_opt_rounds(adj, first, first.len() - 1, k);
    lemma_rounds_of_fixpoint(adj, first, first.len() - 1, k);
}

} // verus!
