//! One-dimensional bin packing: items of integer size go into bins of a
//! fixed capacity, using as few bins as possible. Heuristics (best fit, first
//! fit), exact searches (backtracking, branch and bound) and the moves of the
//! annealing heuristic.
use vstd::prelude::*;
use vstd::multiset::Multiset;
use rand::rngs::ThreadRng;
use crate::random::{random_index, shuffle_i32};

verus! {

// ---------------------------------------------------------------------------
// The model: sums, bins and packings
// ---------------------------------------------------------------------------

/// The sum of the sizes in `s`.
pub open spec fn seq_sum(s: Seq<i32>) -> int
    decreases s.len(),
{
    if s.len() == 0 {
        0
    } else {
        seq_sum(s.drop_last()) + s.last()
    }
}

/// The contents of the bins, bin by bin.
pub open spec fn bins_view(b: Seq<Vec<i32>>) -> Seq<Seq<i32>> {
    Seq::new(b.len(), |i: int| b[i]@)
}

/// `bins` after `item` goes into bin `target`, or into a new bin at the end
/// when `target` is not the index of a bin.
pub open spec fn place(bins: Seq<Seq<i32>>, item: i32, target: int) -> Seq<Seq<i32>> {
    if 0 <= target < bins.len() {
        bins.update(target, bins[target].push(item))
    } else {
        bins.push(seq![item])
    }
}

/// Item `item` may go into bin `target`: either a new bin (`target` is the
/// number of bins), or an existing bin that still has room for it.
pub open spec fn may_place(bins: Seq<Seq<i32>>, item: i32, cap: i32, target: int) -> bool {
    target == bins.len() || (0 <= target < bins.len() && seq_sum(bins[target]) + item <= cap)
}

/// The bins obtained by putting `items[k]` into bin `choice[k]`, in order.
pub open spec fn pack(items: Seq<i32>, choice: Seq<int>) -> Seq<Seq<i32>>
    decreases choice.len(),
{
    if choice.len() == 0 {
        Seq::empty()
    } else {
        place(pack(items, choice.drop_last()), items[choice.len() - 1], choice.last())
    }
}

/// Every item of `choice` goes either into a new bin or into a bin that
/// still has room for it at that moment.
pub open spec fn feasible(items: Seq<i32>, cap: i32, choice: Seq<int>) -> bool
    decreases choice.len(),
{
    if choice.len() == 0 {
        true
    } else {
        feasible(items, cap, choice.drop_last()) && choice.len() <= items.len() && may_place(
            pack(items, choice.drop_last()),
            items[choice.len() - 1],
            cap,
            choice.last(),
        )
    }
}

/// A complete packing of `items`: a feasible choice of bin for every item.
pub open spec fn is_packing(items: Seq<i32>, cap: i32, choice: Seq<int>) -> bool {
    choice.len() == items.len() && feasible(items, cap, choice)
}

/// `s` is in non-increasing order.
pub open spec fn sorted_desc(s: Seq<i32>) -> bool {
    forall|a: int, b: int| 0 <= a < b < s.len() ==> s[a] >= s[b]
}

proof fn lemma_seq_sum_bound(s: Seq<i32>)
    ensures
        -(s.len() * 0x8000_0000) <= seq_sum(s) <= s.len() * 0x8000_0000,
    decreases s.len(),
{
    if s.len() > 0 {
        lemma_seq_sum_bound(s.drop_last());
        assert(s.len() * 0x8000_0000 == (s.len() - 1) * 0x8000_0000 + 0x8000_0000) by (
        nonlinear_arith);
    }
}

proof fn lemma_seq_sum_push(s: Seq<i32>, x: i32)
    ensures
        seq_sum(s.push(x)) == seq_sum(s) + x,
{
    assert(s.push(x).drop_last() =~= s);
}

/// The number of bins never goes down as items are placed.
proof fn lemma_pack_len_monotonic(items: Seq<i32>, choice: Seq<int>, k: int)
    requires
        0 <= k <= choice.len(),
    ensures
        pack(items, choice.take(k)).len() <= pack(items, choice).len(),
    decreases choice.len() - k,
{
    if k < choice.len() {
        lemma_pack_len_monotonic(items, choice.drop_last(), k);
        assert(choice.drop_last().take(k) =~= choice.take(k));
        assert(choice.take(choice.len() as int) =~= choice);
    } else {
        assert(choice.take(k) =~= choice);
    }
}

// ---------------------------------------------------------------------------
// Small exact helpers
// ---------------------------------------------------------------------------

/// The sum of a bin, computed without overflow.
fn bin_sum(bin: &Vec<i32>) -> (r: i128)
    ensures
        r == seq_sum(bin@),
        -0x1_0000_0000_0000_0000_0000_0000 <= r <= 0x1_0000_0000_0000_0000_0000_0000,
{
    let mut total: i128 = 0;
    let mut k: usize = 0;
    while k < bin.len()
        invariant
            k <= bin.len(),
            total == seq_sum(bin@.take(k as int)),
        decreases bin.len() - k,
    {
        proof {
            assert(bin@.take(k + 1).drop_last() =~= bin@.take(k as int));
            lemma_seq_sum_bound(bin@.take(k + 1));
            assert(bin@.take(k + 1).len() == k + 1);
            assert((k + 1) * 0x8000_0000 <= 0x1_0000_0000_0000_0000 * 0x8000_0000) by (
            nonlinear_arith)
                requires k < 0x1_0000_0000_0000_0000;
        }
        total = total + bin[k] as i128;
        k = k + 1;
    }
    assert(bin@.take(bin.len() as int) =~= bin@);
    proof {
        lemma_seq_sum_bound(bin@);
        assert(bin@.len() * 0x8000_0000 <= 0x1_0000_0000_0000_0000_0000_0000) by (nonlinear_arith)
            requires bin@.len() <= 0x1_0000_0000_0000_0000;
    }
    total
}

/// A copy of the bins, bin by bin.
fn copy_bins(bins: &Vec<Vec<i32>>) -> (r: Vec<Vec<i32>>)
    ensures
        bins_view(r@) == bins_view(bins@),
{
    let mut out: Vec<Vec<i32>> = Vec::new();
    let mut i: usize = 0;
    while i < bins.len()
        invariant
            i <= bins.len(),
            out.len() == i,
            forall|a: int| 0 <= a < i ==> #[trigger] out@[a]@ == bins@[a]@,
        decreases bins.len() - i,
    {
        let row = &bins[i];
        let mut copy: Vec<i32> = Vec::new();
        let mut k: usize = 0;
        while k < row.len()
            invariant
                k <= row.len(),
                copy@ == row@.take(k as int),
            decreases row.len() - k,
        {
            copy.push(row[k]);
            assert(copy@ =~= row@.take(k + 1));
            k = k + 1;
        }
        assert(copy@ =~= row@);
        out.push(copy);
        i = i + 1;
    }
    assert(bins_view(out@) =~= bins_view(bins@));
    out
}

/// Sorts the sizes in non-increasing order (largest first).
fn sort_descending(v: &mut Vec<i32>)
    ensures
        sorted_desc(final(v)@),
        final(v)@.to_multiset() == old(v)@.to_multiset(),
{
    broadcast use vstd::multiset::group_multiset_properties;
    let ghost orig = v@;
    let n = v.len();
    let mut i: usize = 1;
    while i < n
        invariant
            n == v.len(),
            1 <= i || n == 0,
            v@.to_multiset() == orig.to_multiset(),
            forall|a: int, b: int| 0 <= a < b < i && b < n ==> v@[a] >= v@[b],
        decreases n - i,
    {
        let mut j: usize = i;
        while j > 0 && v[j - 1] < v[j]
            invariant
                n == v.len(),
                0 <= j <= i < n,
                v@.to_multiset() == orig.to_multiset(),
                forall|a: int, b: int| 0 <= a < b < j ==> v@[a] >= v@[b],
                forall|a: int, b: int| j <= a < b <= i ==> v@[a] >= v@[b],
                forall|a: int, b: int| 0 <= a < j && j < b <= i ==> v@[a] >= v@[b],
            decreases j,
        {
            let x = v[j - 1];
            let y = v[j];
            proof {
                let s1 = v@.update(j - 1, y);
                vstd::seq_lib::to_multiset_update(v@, j - 1, y);
                vstd::seq_lib::to_multiset_update(s1, j as int, x);
                assert(v@.contains(x));
                vstd::seq_lib::to_multiset_contains(v@, x);
                assert(v@.to_multiset().insert(y).remove(x).insert(x).remove(y) =~= v@.to_multiset());
            }
            v.set(j - 1, y);
            v.set(j, x);
            j = j - 1;
        }
        i = i + 1;
    }
}

// ---------------------------------------------------------------------------
// Backtracking
// ---------------------------------------------------------------------------

/// The outcome of the exhaustive search over the packings of `items`,
/// starting from the bound `n` (one item per bin): `best` is the fewest bins
/// of any packing, capped at `n`; `solution` holds the bins of a packing
/// with `best` bins, or is empty when no packing beats `n`.
pub open spec fn search_outcome(
    items: Seq<i32>,
    cap: i32,
    best: int,
    solution: Seq<Seq<i32>>,
) -> bool {
    &&& best <= items.len()
    &&& forall|c: Seq<int>| is_packing(items, cap, c) ==> best <= #[trigger] pack(items, c).len()
    &&& (best == items.len() && solution.len() == 0) || exists|c: Seq<int>|
        is_packing(items, cap, c) && pack(items, c).len() == best && solution == #[trigger] pack(
            items,
            c,
        )
}

/// How a search leaves its best count and bins: the count never grows; the
/// bins stay as they were while the count stays; a smaller count comes with
/// bins, as many as the count, that hold the items of `bins0` together with
/// the items of `rest`.
pub open spec fn search_update(
    best0: int,
    sol0: Seq<Seq<i32>>,
    best: int,
    sol: Seq<Seq<i32>>,
    bins0: Seq<Seq<i32>>,
    rest: Seq<i32>,
) -> bool {
    &&& best <= best0
    &&& best == best0 ==> sol == sol0
    &&& best < best0 ==> sol.len() == best && bins_multiset(sol) == bins_multiset(bins0).add(
        rest.to_multiset(),
    )
}

/// Placing item `index` moves it from the items still to place into the bins.
proof fn lemma_place_skip(bins: Seq<Seq<i32>>, items: Seq<i32>, index: int, t: int)
    requires
        0 <= index < items.len(),
    ensures
        bins_multiset(place(bins, items[index], t)).add(items.skip(index + 1).to_multiset())
            == bins_multiset(bins).add(items.skip(index).to_multiset()),
{
    broadcast use {vstd::multiset::group_multiset_properties, vstd::multiset::group_multiset_axioms};
    let item = items[index];
    lemma_bins_multiset_place(bins, item, t);
    let s = items.skip(index);
    assert(s.remove(0) =~= items.skip(index + 1));
    vstd::seq_lib::to_multiset_remove(s, 0);
    assert(s[0] == item);
    assert(s.contains(item));
    vstd::seq_lib::to_multiset_contains(s, item);
    let a = bins_multiset(bins);
    let r = items.skip(index + 1).to_multiset();
    assert(s.to_multiset() =~= r.insert(item));
    assert(a.insert(item).add(r) =~= a.add(r.insert(item)));
}

/// Nothing is left to place once every item is placed.
proof fn lemma_skip_all(bins: Seq<Seq<i32>>, items: Seq<i32>)
    ensures
        bins_multiset(bins).add(items.skip(items.len() as int).to_multiset()) == bins_multiset(bins),
{
    broadcast use {vstd::multiset::group_multiset_properties, vstd::multiset::group_multiset_axioms};
    let e = items.skip(items.len() as int);
    assert(e =~= Seq::<i32>::empty());
    vstd::seq_lib::to_multiset_len(e);
    assert(e.to_multiset() =~= Multiset::empty()) by {
        assert forall|v: i32| #[trigger] e.to_multiset().count(v) == 0 by {
            vstd::seq_lib::to_multiset_contains(e, v);
        }
    }
    assert(bins_multiset(bins).add(e.to_multiset()) =~= bins_multiset(bins));
}

/// The exhaustive search from the partial packing `bins` of the first
/// `index` items, with `best` bins and the bins `sol` the best found so far;
/// gives the best count and bins at its end. A complete packing with fewer
/// bins than `best` replaces it; the search stops at a packing with at least
/// `best` bins, else it tries the next item in each bin with room for it,
/// then in a new bin.
pub open spec fn bt_search(
    items: Seq<i32>,
    cap: i32,
    index: int,
    bins: Seq<Seq<i32>>,
    best: int,
    sol: Seq<Seq<i32>>,
) -> (int, Seq<Seq<i32>>)
    decreases items.len() - index, bins.len() + 1,
{
    let (best1, sol1) = if index == items.len() && bins.len() < best {
        (bins.len() as int, bins)
    } else {
        (best, sol)
    };
    if index < 0 || index >= items.len() || bins.len() >= best1 {
        (best1, sol1)
    } else {
        bt_tries(items, cap, index, bins, 0, best1, sol1)
    }
}

/// The exhaustive search placing item `index` in bins `i..` of `bins` (then
/// in a new bin), from the best count and bins `best` and `sol`.
pub open spec fn bt_tries(
    items: Seq<i32>,
    cap: i32,
    index: int,
    bins: Seq<Seq<i32>>,
    i: int,
    best: int,
    sol: Seq<Seq<i32>>,
) -> (int, Seq<Seq<i32>>)
    decreases items.len() - index, bins.len() - i,
{
    if index < 0 || index >= items.len() || i < 0 {
        (best, sol)
    } else if i >= bins.len() {
        bt_search(items, cap, index + 1, place(bins, items[index], bins.len() as int), best, sol)
    } else if seq_sum(bins[i]) + items[index] <= cap {
        let (b2, s2) = bt_search(items, cap, index + 1, place(bins, items[index], i), best, sol);
        bt_tries(items, cap, index, bins, i + 1, b2, s2)
    } else {
        bt_tries(items, cap, index, bins, i + 1, best, sol)
    }
}

/// What the exhaustive search gives on `items`, searched in their order:
/// from no bins, with one bin per item as the count to beat and no bins found.
pub open spec fn bt_result(items: Seq<i32>, cap: i32) -> (int, Seq<Seq<i32>>) {
    bt_search(items, cap, 0, Seq::empty(), items.len() as int, Seq::empty())
}

/// `bins` is the packing that `choice` (a bin for each of the first `index`
/// items, each into a bin that has room or into a new bin) makes.
pub open spec fn on_search(items: Seq<i32>, cap: i32, choice: Seq<int>, index: int, bins: Seq<Seq<i32>>) -> bool {
    &&& choice.len() == index
    &&& feasible(items, cap, choice)
    &&& bins == pack(items, choice)
}

fn bin_packing_backtracking_recursive(
    items: &Vec<i32>,
    bins: &mut Vec<Vec<i32>>,
    capacity: i32,
    index: usize,
    best: &mut usize,
    best_solution: &mut Vec<Vec<i32>>,
    Ghost(choice): Ghost<Seq<int>>,
)
    requires
        index <= items.len(),
    ensures
        bins_view(final(bins)@) == bins_view(old(bins)@),
        *final(best) <= *old(best),
        on_search(items@, capacity, choice, index as int, bins_view(old(bins)@)) ==> forall|c: Seq<int>|
            is_packing(items@, capacity, c) && #[trigger] c.take(index as int) == choice
                ==> *final(best) <= pack(items@, c).len(),
        on_search(items@, capacity, choice, index as int, bins_view(old(bins)@)) ==> (
        *final(best) == *old(best) && bins_view(final(best_solution)@) == bins_view(
            old(best_solution)@,
        )) || exists|c: Seq<int>|
            is_packing(items@, capacity, c) && #[trigger] c.take(index as int) == choice && pack(
                items@,
                c,
            ).len() == *final(best) && bins_view(final(best_solution)@) == pack(items@, c),
        (*final(best) as int, bins_view(final(best_solution)@)) == bt_search(
            items@,
            capacity,
            index as int,
            bins_view(old(bins)@),
            *old(best) as int,
            bins_view(old(best_solution)@),
        ),
        search_update(
            *old(best) as int,
            bins_view(old(best_solution)@),
            *final(best) as int,
            bins_view(final(best_solution)@),
            bins_view(old(bins)@),
            items@.skip(index as int),
        ),
    decreases items.len() - index,
{
    if index == items.len() {
        if bins.len() < *best {
            *best = bins.len();
            *best_solution = copy_bins(bins);
            proof {
                if choice.len() == index {
                    assert(choice.take(index as int) =~= choice);
                }
                lemma_skip_all(bins_view(bins@), items@);
            }
        }
    }
    if bins.len() >= *best {
        proof {
            if on_search(items@, capacity, choice, index as int, bins_view(old(bins)@)) {
                assert forall|c: Seq<int>|
                    is_packing(items@, capacity, c) && #[trigger] c.take(index as int) == choice implies *best
                    <= pack(items@, c).len() by {
                    lemma_pack_len_monotonic(items@, c, index as int);
                }
            }
        }
        return;
    }
    let item = items[index];
    let ghost old_best = *best;
    let ghost old_bins = bins_view(bins@);
    let ghost old_sol = bins_view(best_solution@);
    let ghost searching = on_search(items@, capacity, choice, index as int, old_bins);
    let nb = bins.len();
    let mut i: usize = 0;
    proof {
        assert(bt_search(items@, capacity, index as int, old_bins, old_best as int, old_sol)
            == bt_tries(items@, capacity, index as int, old_bins, 0, old_best as int, old_sol));
    }
    while i < nb
        invariant
            bt_tries(items@, capacity, index as int, old_bins, i as int, *best as int, bins_view(
                best_solution@,
            )) == bt_search(items@, capacity, index as int, old_bins, old_best as int, old_sol),
            nb == bins.len(),
            searching == on_search(items@, capacity, choice, index as int, old_bins),
            index < items.len(),
            item == items@[index as int],
            bins_view(bins@) == old_bins,
            old_bins == bins_view(old(bins)@),
            old_best == *old(best),
            old_sol == bins_view(old(best_solution)@),
            *best <= old_best,
            search_update(
                old_best as int,
                old_sol,
                *best as int,
                bins_view(best_solution@),
                old_bins,
                items@.skip(index as int),
            ),
            i <= nb,
            searching ==> forall|c: Seq<int>|
                is_packing(items@, capacity, c) && #[trigger] c.take(index as int) == choice && 0
                    <= c[index as int] < i ==> *best <= pack(items@, c).len(),
            searching ==> (*best == old_best && bins_view(best_solution@) == old_sol) || exists|c: Seq<int>|
                is_packing(items@, capacity, c) && #[trigger] c.take(index as int) == choice && pack(
                    items@,
                    c,
                ).len() == *best && bins_view(best_solution@) == pack(items@, c),
        decreases nb - i,
    {
        let current_sum = bin_sum(&bins[i]);
        assert(bins@[i as int]@ == old_bins[i as int]);
        if current_sum + item as i128 <= capacity as i128 {
            let ghost next = choice.push(i as int);
            proof {
                assert(next.drop_last() =~= choice);
                if searching {
                    assert(may_place(old_bins, item, capacity, i as int));
                    assert(on_search(items@, capacity, next, index + 1, place(old_bins, item, i as int)));
                }
            }
            bins[i].push(item);
            proof {
                assert(bins_view(bins@) =~= place(old_bins, item, i as int));
            }
            let ghost before = *best;
            let ghost before_sol = bins_view(best_solution@);
            bin_packing_backtracking_recursive(
                items,
                bins,
                capacity,
                index + 1,
                best,
                best_solution,
                Ghost(next),
            );
            proof {
                lemma_place_skip(old_bins, items@, index as int, i as int);
            }
            let ghost pushed = bins@;
            let _ = bins[i].pop();
            proof {
                assert forall|k: int| 0 <= k < old_bins.len() implies #[trigger] bins_view(bins@)[k]
                    == old_bins[k] by {
                    assert(bins_view(pushed)[k] == place(old_bins, item, i as int)[k]);
                    if k == i {
                        assert(bins@[k]@ =~= pushed[k]@.drop_last());
                    } else {
                        assert(bins@[k] == pushed[k]);
                    }
                }
                assert(bins_view(bins@) =~= old_bins);
                if searching {
                    assert forall|c: Seq<int>|
                        is_packing(items@, capacity, c) && #[trigger] c.take(index as int) == choice && 0
                            <= c[index as int] < i + 1 implies *best <= pack(items@, c).len() by {
                        if c[index as int] == i {
                            assert(c.take(index + 1) =~= next);
                        }
                    }
                }
                if searching && !(*best == before && bins_view(best_solution@) == before_sol) {
                    let c = choose|c: Seq<int>|
                        is_packing(items@, capacity, c) && #[trigger] c.take(index + 1) == next
                            && pack(items@, c).len() == *best && bins_view(best_solution@) == pack(
                            items@,
                            c,
                        );
                    assert(c.take(index as int) =~= choice);
                }
            }
        } else {
            proof {
                if searching {
                    assert forall|c: Seq<int>|
                        is_packing(items@, capacity, c) && #[trigger] c.take(index as int) == choice && 0
                            <= c[index as int] < i + 1 implies *best <= pack(items@, c).len() by {
                        if c[index as int] == i {
                            let pre = c.take(index + 1);
                            lemma_feasible_prefix(items@, capacity, c, index + 1);
                            assert(pre.drop_last() =~= choice);
                            assert(pre.last() == i);
                            assert(may_place(old_bins, item, capacity, i as int));
                        }
                    }
                }
            }
        }
        i = i + 1;
    }
    let ghost next = choice.push(nb as int);
    let mut fresh: Vec<i32> = Vec::new();
    fresh.push(item);
    bins.push(fresh);
    proof {
        assert(next.drop_last() =~= choice);
        assert(bins_view(bins@) =~= place(old_bins, item, nb as int));
        if searching {
            assert(on_search(items@, capacity, next, index + 1, place(old_bins, item, nb as int)));
        }
    }
    let ghost before = *best;
    let ghost before_sol = bins_view(best_solution@);
    bin_packing_backtracking_recursive(items, bins, capacity, index + 1, best, best_solution, Ghost(next));
    proof {
        lemma_place_skip(old_bins, items@, index as int, nb as int);
    }
    let ghost pushed = bins@;
    let _ = bins.pop();
    proof {
        assert(bins@ =~= pushed.drop_last());
        assert forall|k: int| 0 <= k < old_bins.len() implies #[trigger] bins_view(bins@)[k]
            == old_bins[k] by {
            assert(bins_view(pushed)[k] == place(old_bins, item, nb as int)[k]);
        }
        assert(bins_view(bins@) =~= old_bins);
        if searching {
            assert forall|c: Seq<int>|
                is_packing(items@, capacity, c) && #[trigger] c.take(index as int) == choice implies *best
                <= pack(items@, c).len() by {
                let pre = c.take(index + 1);
                lemma_feasible_prefix(items@, capacity, c, index + 1);
                assert(pre.drop_last() =~= choice);
                if c[index as int] == nb {
                    assert(pre =~= next);
                } else {
                    assert(may_place(old_bins, item, capacity, pre.last()));
                }
            }
        }
        if searching && !(*best == before && bins_view(best_solution@) == before_sol) {
            let c = choose|c: Seq<int>|
                is_packing(items@, capacity, c) && #[trigger] c.take(index + 1) == next && pack(
                    items@,
                    c,
                ).len() == *best && bins_view(best_solution@) == pack(items@, c);
            assert(c.take(index as int) =~= choice);
        }
    }
}

proof fn lemma_feasible_prefix(items: Seq<i32>, cap: i32, c: Seq<int>, k: int)
    requires
        feasible(items, cap, c),
        0 <= k <= c.len(),
    ensures
        feasible(items, cap, c.take(k)),
    decreases c.len() - k,
{
    if k < c.len() {
        lemma_feasible_prefix(items, cap, c.drop_last(), k);
        assert(c.drop_last().take(k) =~= c.take(k));
    } else {
        assert(c.take(k) =~= c);
    }
}

/// The fewest bins for `items`, found by exhaustive search over the
/// packings of the items taken largest first, where an item goes into an
/// existing bin only if that bin still has room for it. Returns that number
/// (at most one bin per item) and the bins of such a packing, or no bins when
/// no packing uses fewer bins than there are items.
pub fn bin_packing_backtracking(items: &Vec<i32>, capacity: i32) -> (r: (usize, Vec<Vec<i32>>))
    ensures
        (r.0 as int, bins_view(r.1@)) == bt_result(largest_first(items@), capacity),
        search_outcome(largest_first(items@), capacity, r.0 as int, bins_view(r.1@)),
{
    let ghost given = items@;
    let mut items = items.clone();
    assert(items@ =~= given);
    sort_descending(&mut items);
    proof {
        lemma_largest_first(given, items@);
    }
    let mut best = items.len();
    let mut bins: Vec<Vec<i32>> = Vec::new();
    let mut best_solution: Vec<Vec<i32>> = Vec::new();
    proof {
        assert(bins_view(bins@) =~= pack(items@, Seq::empty()));
    }
    let ghost start_bins = bins_view(bins@);
    let ghost start_sol = bins_view(best_solution@);
    proof {
        assert(start_bins =~= Seq::<Seq<i32>>::empty());
        assert(start_sol =~= Seq::<Seq<i32>>::empty());
    }
    bin_packing_backtracking_recursive(
        &items,
        &mut bins,
        capacity,
        0,
        &mut best,
        &mut best_solution,
        Ghost(Seq::empty()),
    );
    proof {
        assert forall|c: Seq<int>| is_packing(items@, capacity, c) implies best <= #[trigger] pack(
            items@,
            c,
        ).len() by {
            assert(c.take(0) =~= Seq::<int>::empty());
        }
        vstd::seq_lib::to_multiset_len(items@);
        vstd::seq_lib::to_multiset_len(given);
    }
    proof {
        assert((best as int, bins_view(best_solution@)) == bt_result(items@, capacity));
    }
    (best, best_solution)
}


// ---------------------------------------------------------------------------
// Branch and bound
// ---------------------------------------------------------------------------

/// `loads[k]` is the sum of bin `k`.
pub open spec fn loads_match(loads: Seq<i32>, bins: Seq<Seq<i32>>) -> bool {
    loads.len() == bins.len() && forall|k: int| 0 <= k < loads.len() ==> #[trigger] loads[k] == seq_sum(
        bins[k],
    )
}

/// What the branch and bound search reports over the items in the order
/// searched: at most one bin per item, and either no improvement on that (no
/// bins) or the bins of a packing with exactly `best` bins.
pub open spec fn branch_bound_outcome(
    items: Seq<i32>,
    cap: i32,
    best: int,
    solution: Seq<Seq<i32>>,
) -> bool {
    &&& best <= items.len()
    &&& (best == items.len() && solution.len() == 0) || exists|c: Seq<int>|
        is_packing(items, cap, c) && pack(items, c).len() == best && solution == #[trigger] pack(
            items,
            c,
        )
}

/// The branch and bound search from the partial packing `bins` of the first
/// `index` items, with `best` bins and the bins `sol` the best found so far;
/// gives the best count and bins at its end. A complete packing with fewer
/// bins than `best` replaces it. The search stops at a packing with at least
/// `best` bins, and where its bins plus the remaining sizes' sum divided by
/// the capacity (rounded up) reach `best`; else it tries the next item in
/// each bin with room for it, skipping a bin whose load equals that of a bin
/// tried before, and then in a new bin.
pub open spec fn bb_search(
    items: Seq<i32>,
    cap: i32,
    index: int,
    bins: Seq<Seq<i32>>,
    best: int,
    sol: Seq<Seq<i32>>,
) -> (int, Seq<Seq<i32>>)
    decreases items.len() - index, bins.len() + 1,
{
    let (best1, sol1) = if index == items.len() && bins.len() < best {
        (bins.len() as int, bins)
    } else {
        (best, sol)
    };
    if index < 0 || index >= items.len() || bins.len() >= best1 {
        (best1, sol1)
    } else if bins.len() + div_toward_zero(
        seq_sum(items) - seq_sum(items.take(index)) + cap - 1,
        cap as int,
    ) >= best1 {
        (best1, sol1)
    } else {
        bb_tries(items, cap, index, bins, 0, Set::empty(), best1, sol1)
    }
}

/// The branch and bound search placing item `index` in bins `i..` of `bins`
/// (then in a new bin), where `used` holds the loads of the bins tried so
/// far, from the best count and bins `best` and `sol`.
pub open spec fn bb_tries(
    items: Seq<i32>,
    cap: i32,
    index: int,
    bins: Seq<Seq<i32>>,
    i: int,
    used: Set<int>,
    best: int,
    sol: Seq<Seq<i32>>,
) -> (int, Seq<Seq<i32>>)
    decreases items.len() - index, bins.len() - i,
{
    if index < 0 || index >= items.len() || i < 0 {
        (best, sol)
    } else if i >= bins.len() {
        bb_search(items, cap, index + 1, place(bins, items[index], bins.len() as int), best, sol)
    } else {
        let load = seq_sum(bins[i]);
        if load + items[index] <= cap && !used.contains(load) {
            let (b2, s2) = bb_search(items, cap, index + 1, place(bins, items[index], i), best, sol);
            bb_tries(items, cap, index, bins, i + 1, used.insert(load), b2, s2)
        } else {
            bb_tries(items, cap, index, bins, i + 1, used, best, sol)
        }
    }
}

/// What branch and bound gives on `items`, searched in their order: from no
/// bins, with one bin per item as the count to beat and no bins found.
pub open spec fn bb_result(items: Seq<i32>, cap: i32) -> (int, Seq<Seq<i32>>) {
    bb_search(items, cap, 0, Seq::empty(), items.len() as int, Seq::empty())
}

/// The sum of the positive sizes.
pub open spec fn pos_sum(s: Seq<i32>) -> int
    decreases s.len(),
{
    if s.len() == 0 {
        0
    } else {
        pos_sum(s.drop_last()) + if s.last() > 0 {
            s.last() as int
        } else {
            0
        }
    }
}

/// The sum of the negative sizes.
pub open spec fn neg_sum(s: Seq<i32>) -> int
    decreases s.len(),
{
    if s.len() == 0 {
        0
    } else {
        neg_sum(s.drop_last()) + if s.last() < 0 {
            s.last() as int
        } else {
            0
        }
    }
}

proof fn lemma_pos_neg_sign(s: Seq<i32>)
    ensures
        neg_sum(s) <= 0 <= pos_sum(s),
    decreases s.len(),
{
    if s.len() > 0 {
        lemma_pos_neg_sign(s.drop_last());
    }
}

/// Between two prefixes, the sum of the sizes added lies between the sums of
/// the negative and of the positive sizes added, and these sums only grow
/// apart.
proof fn lemma_prefix_bounds(s: Seq<i32>, i: int, j: int)
    requires
        0 <= i <= j <= s.len(),
    ensures
        neg_sum(s.take(j)) <= neg_sum(s.take(i)) <= 0 <= pos_sum(s.take(i)) <= pos_sum(s.take(j)),
        neg_sum(s.take(j)) - neg_sum(s.take(i)) <= seq_sum(s.take(j)) - seq_sum(s.take(i)) <= pos_sum(
            s.take(j),
        ) - pos_sum(s.take(i)),
    decreases j - i,
{
    lemma_pos_neg_sign(s.take(i));
    if j > i {
        lemma_prefix_bounds(s, i, j - 1);
        assert(s.take(j).drop_last() =~= s.take(j - 1));
    }
}

proof fn lemma_pos_neg_remove(s: Seq<i32>, i: int)
    requires
        0 <= i < s.len(),
    ensures
        pos_sum(s.remove(i)) == pos_sum(s) - if s[i] > 0 {
            s[i] as int
        } else {
            0
        },
        neg_sum(s.remove(i)) == neg_sum(s) - if s[i] < 0 {
            s[i] as int
        } else {
            0
        },
    decreases s.len(),
{
    if i < s.len() - 1 {
        lemma_pos_neg_remove(s.drop_last(), i);
        assert(s.remove(i).drop_last() =~= s.drop_last().remove(i));
    } else {
        assert(s.remove(i) =~= s.drop_last());
    }
}

/// Two arrangements of the same sizes have the same sums of positive and
/// of negative sizes.
proof fn lemma_same_pos_neg(a: Seq<i32>, b: Seq<i32>)
    requires
        a.to_multiset() == b.to_multiset(),
    ensures
        pos_sum(a) == pos_sum(b),
        neg_sum(a) == neg_sum(b),
    decreases a.len(),
{
    broadcast use vstd::multiset::group_multiset_properties;
    vstd::seq_lib::to_multiset_len(a);
    vstd::seq_lib::to_multiset_len(b);
    if a.len() > 0 {
        let x = a.last();
        lemma_multiset_member(a, b, a.len() - 1);
        let idx = choose|j: int| 0 <= j < b.len() && b[j] == x;
        let b2 = b.remove(idx);
        vstd::seq_lib::to_multiset_remove(b, idx);
        vstd::seq_lib::to_multiset_build(a.drop_last(), x);
        assert(a.drop_last().push(x) =~= a);
        assert(b2.to_multiset() =~= a.drop_last().to_multiset());
        lemma_same_pos_neg(a.drop_last(), b2);
        lemma_pos_neg_remove(b, idx);
    }
}

/// `a` divided by `b`, rounded toward zero (as integer division does it).
pub open spec fn div_toward_zero(a: int, b: int) -> int {
    if a >= 0 {
        a / b
    } else {
        -((-a) / b)
    }
}

proof fn lemma_seq_sum_update(s: Seq<i32>, i: int, v: i32)
    requires
        0 <= i < s.len(),
    ensures
        seq_sum(s.update(i, v)) == seq_sum(s) - s[i] + v,
    decreases s.len(),
{
    if i < s.len() - 1 {
        lemma_seq_sum_update(s.drop_last(), i, v);
        assert(s.update(i, v).drop_last() =~= s.drop_last().update(i, v));
    } else {
        assert(s.update(i, v).drop_last() =~= s.drop_last());
    }
}

proof fn lemma_seq_sum_remove(s: Seq<i32>, i: int)
    requires
        0 <= i < s.len(),
    ensures
        seq_sum(s.remove(i)) == seq_sum(s) - s[i],
    decreases s.len(),
{
    if i < s.len() - 1 {
        lemma_seq_sum_remove(s.drop_last(), i);
        assert(s.remove(i).drop_last() =~= s.drop_last().remove(i));
    } else {
        assert(s.remove(i) =~= s.drop_last());
    }
}

proof fn lemma_multiset_member(a: Seq<i32>, b: Seq<i32>, k: int)
    requires
        a.to_multiset() == b.to_multiset(),
        0 <= k < a.len(),
    ensures
        b.contains(a[k]),
{
    vstd::seq_lib::to_multiset_contains(a, a[k]);
    vstd::seq_lib::to_multiset_contains(b, a[k]);
}

/// The items in non-increasing order: the one such arrangement of them.
pub open spec fn largest_first(items: Seq<i32>) -> Seq<i32> {
    choose|s: Seq<i32>| sorted_desc(s) && s.to_multiset() == items.to_multiset()
}

/// Two arrangements in non-increasing order of the same sizes are equal.
proof fn lemma_sorted_unique(a: Seq<i32>, b: Seq<i32>)
    requires
        sorted_desc(a),
        sorted_desc(b),
        a.to_multiset() == b.to_multiset(),
    ensures
        a == b,
    decreases a.len(),
{
    vstd::seq_lib::to_multiset_len(a);
    vstd::seq_lib::to_multiset_len(b);
    if a.len() == 0 {
        assert(a =~= b);
    } else {
        lemma_multiset_member(a, b, 0);
        lemma_multiset_member(b, a, 0);
        let j = choose|j: int| 0 <= j < b.len() && b[j] == a[0];
        let k = choose|k: int| 0 <= k < a.len() && a[k] == b[0];
        assert(b[0] >= b[j]);
        assert(a[0] >= a[k]);
        assert(a[0] == b[0]);
        vstd::seq_lib::to_multiset_remove(a, 0);
        vstd::seq_lib::to_multiset_remove(b, 0);
        assert(a.remove(0) =~= a.drop_first());
        assert(b.remove(0) =~= b.drop_first());
        lemma_sorted_unique(a.drop_first(), b.drop_first());
        assert(a =~= b) by {
            assert forall|t: int| 0 <= t < a.len() implies a[t] == b[t] by {
                if t > 0 {
                    assert(a[t] == a.drop_first()[t - 1]);
                    assert(b[t] == b.drop_first()[t - 1]);
                }
            }
        }
    }
}

/// An arrangement of the items in non-increasing order is
/// `largest_first(items)`.
proof fn lemma_largest_first(items: Seq<i32>, s: Seq<i32>)
    requires
        sorted_desc(s),
        s.to_multiset() == items.to_multiset(),
    ensures
        largest_first(items) == s,
        s.len() == items.len(),
{
    let l = largest_first(items);
    assert(sorted_desc(l) && l.to_multiset() == items.to_multiset());
    lemma_sorted_unique(l, s);
    vstd::seq_lib::to_multiset_len(s);
    vstd::seq_lib::to_multiset_len(items);
}

/// Two sequences with the same multiset of sizes have the same sum.
proof fn lemma_sorted_same_sum(a: Seq<i32>, b: Seq<i32>)
    requires
        a.to_multiset() == b.to_multiset(),
    ensures
        seq_sum(a) == seq_sum(b),
    decreases a.len(),
{
    broadcast use vstd::multiset::group_multiset_properties;
    vstd::seq_lib::to_multiset_len(a);
    vstd::seq_lib::to_multiset_len(b);
    if a.len() > 0 {
        let x = a.last();
        lemma_multiset_member(a, b, a.len() - 1);
        let idx = choose|j: int| 0 <= j < b.len() && b[j] == x;
        let b2 = b.remove(idx);
        vstd::seq_lib::to_multiset_remove(b, idx);
        vstd::seq_lib::to_multiset_build(a.drop_last(), x);
        assert(a.drop_last().push(x) =~= a);
        assert(b2.to_multiset() =~= a.drop_last().to_multiset());
        lemma_sorted_same_sum(a.drop_last(), b2);
        lemma_seq_sum_remove(b, idx);
    }
}

proof fn lemma_place_loads(loads: Seq<i32>, bins: Seq<Seq<i32>>, item: i32, target: int)
    requires
        loads_match(loads, bins),
        0 <= target < bins.len(),
        i32::MIN <= loads[target] + item <= i32::MAX,
    ensures
        loads_match(
            loads.update(target, (loads[target] + item) as i32),
            place(bins, item, target),
        ),
{
    lemma_seq_sum_push(bins[target], item);
}

/// What branch and bound needs of the sizes and the capacity so that none
/// of its sums overflows and its bound, (remaining sizes + capacity - 1) /
/// capacity, is never negative (a negative bound would be cast to `usize`, so
/// that what happens would depend on the width of `usize`): a positive
/// capacity when there are items; the negative sizes, and the positive
/// sizes plus the capacity, sum within `i32`; and the negative sizes sum to
/// more than `1 - 2 * capacity`.
pub open spec fn bb_sizes_fit(items: Seq<i32>, cap: i32) -> bool {
    &&& items.len() > 0 ==> cap > 0 && neg_sum(items) + 2 * cap > 1
    &&& i32::MIN <= neg_sum(items)
    &&& pos_sum(items) + cap <= i32::MAX
}

/// The sum of the negative sizes from position `index` on.
pub open spec fn rest_neg(items: Seq<i32>, index: int) -> int {
    neg_sum(items) - neg_sum(items.take(index))
}

/// The sum of the positive sizes from position `index` on.
pub open spec fn rest_pos(items: Seq<i32>, index: int) -> int {
    pos_sum(items) - pos_sum(items.take(index))
}

/// No sum that branch and bound forms from a state with these `loads`, at
/// position `index`, can overflow, and its bound is never negative: the
/// conditions of `bb_sizes_fit` on the sizes still to place, and every load
/// plus the negative, or plus the positive, sizes still to place fits in an
/// `i32`.
pub open spec fn bb_state_fits(items: Seq<i32>, cap: i32, index: int, loads: Seq<i32>) -> bool {
    &&& index < items.len() ==> cap > 0 && rest_neg(items, index) + 2 * cap > 1
    &&& i32::MIN <= rest_neg(items, index)
    &&& rest_pos(items, index) + cap <= i32::MAX
    &&& forall|k: int|
        0 <= k < loads.len() ==> i32::MIN <= #[trigger] loads[k] + rest_neg(items, index) && loads[k]
            + rest_pos(items, index) <= i32::MAX
}

/// The sums of the sizes from `index` on: they shrink as `index` grows, one
/// size at a time, and every run of them starting at `index` lies between
/// them.
proof fn lemma_rest_bounds(items: Seq<i32>, index: int, j: int)
    requires
        0 <= index <= j <= items.len(),
    ensures
        rest_neg(items, index) <= rest_neg(items, j) <= 0 <= rest_pos(items, j) <= rest_pos(items, index),
        rest_neg(items, index) <= seq_sum(items.take(j)) - seq_sum(items.take(index)) <= rest_pos(
            items,
            index,
        ),
        j < items.len() ==> rest_neg(items, j) == rest_neg(items, j + 1) + (if items[j] < 0 {
            items[j] as int
        } else {
            0
        }) && rest_pos(items, j) == rest_pos(items, j + 1) + (if items[j] > 0 {
            items[j] as int
        } else {
            0
        }),
{
    lemma_prefix_bounds(items, index, j);
    lemma_prefix_bounds(items, j, items.len() as int);
    assert(items.take(items.len() as int) =~= items);
    if j < items.len() {
        assert(items.take(j + 1).drop_last() =~= items.take(j));
        assert(items.take(j + 1).last() == items[j]);
    }
}

fn bin_packing_branch_bound_recursive(
    items: &Vec<i32>,
    bins: &mut Vec<Vec<i32>>,
    capacity: i32,
    index: usize,
    loads: &mut Vec<i32>,
    best: &mut usize,
    best_solution: &mut Vec<Vec<i32>>,
    Ghost(choice): Ghost<Seq<int>>,
)
    requires
        index <= items.len(),
        loads_match(old(loads)@, bins_view(old(bins)@)),
        bb_state_fits(items@, capacity, index as int, old(loads)@),
    ensures
        bins_view(final(bins)@) == bins_view(old(bins)@),
        final(loads)@ == old(loads)@,
        *final(best) <= *old(best),
        on_search(items@, capacity, choice, index as int, bins_view(old(bins)@)) && branch_bound_outcome(
            items@,
            capacity,
            *old(best) as int,
            bins_view(old(best_solution)@),
        ) ==> branch_bound_outcome(items@, capacity, *final(best) as int, bins_view(final(best_solution)@)),
        (*final(best) as int, bins_view(final(best_solution)@)) == bb_search(
            items@,
            capacity,
            index as int,
            bins_view(old(bins)@),
            *old(best) as int,
            bins_view(old(best_solution)@),
        ),
        search_update(
            *old(best) as int,
            bins_view(old(best_solution)@),
            *final(best) as int,
            bins_view(final(best_solution)@),
            bins_view(old(bins)@),
            items@.skip(index as int),
        ),
    decreases items.len() - index,
{
    if index == items.len() {
        if bins.len() < *best {
            *best = bins.len();
            *best_solution = copy_bins(bins);
            proof {
                lemma_skip_all(bins_view(bins@), items@);
                if on_search(items@, capacity, choice, index as int, bins_view(bins@)) {
                    assert(pack(items@, choice).len() == bins.len());
                }
            }
        }
    }
    if bins.len() >= *best {
        return;
    }
    let mut remaining_sum: i32 = 0;
    let mut j: usize = index;
    proof {
        assert(items@.take(j as int).len() == j);
    }
    while j < items.len()
        invariant
            bb_state_fits(items@, capacity, index as int, loads@),
            index < items.len(),
            index <= j <= items.len(),
            remaining_sum == seq_sum(items@.take(j as int)) - seq_sum(items@.take(index as int)),
        decreases items.len() - j,
    {
        proof {
            lemma_rest_bounds(items@, index as int, j + 1);
            assert(items@.take(j + 1).drop_last() =~= items@.take(j as int));
        }
        remaining_sum = remaining_sum + items[j];
        j = j + 1;
    }
    proof {
        assert(items@.take(items.len() as int) =~= items@);
        lemma_rest_bounds(items@, index as int, items.len() as int);
        assert(remaining_sum + capacity - 1 > -capacity);
    }
    let numerator = remaining_sum + capacity - 1;
    let min_additional_bins = numerator / capacity;
    proof {
        if numerator < 0 {
            let m = -(numerator as int);
            let c = capacity as int;
            assert(m / c == 0) by (nonlinear_arith)
                requires
                    0 < m < c,
            ;
            assert(min_additional_bins == 0);
        }
        assert(min_additional_bins == div_toward_zero(numerator as int, capacity as int));
    }
    if bins.len() as u128 + min_additional_bins as u128 >= *best as u128 {
        return;
    }
    let item = items[index];
    let ghost old_best = *best;
    let ghost old_bins = bins_view(bins@);
    let ghost old_loads = loads@;
    let ghost old_sol = bins_view(best_solution@);
    let ghost searching = on_search(items@, capacity, choice, index as int, old_bins)
        && branch_bound_outcome(items@, capacity, old_best as int, old_sol);
    let mut used_loads: std::collections::HashSet<i32> = std::collections::HashSet::new();
    let ghost mut used: Set<int> = Set::empty();
    proof {
        assert(bb_search(items@, capacity, index as int, old_bins, old_best as int, old_sol)
            == bb_tries(items@, capacity, index as int, old_bins, 0, used, old_best as int, old_sol));
    }
    let nb = bins.len();
    proof {
        lemma_rest_bounds(items@, index as int, index as int);
        lemma_rest_bounds(items@, index + 1, index + 1);
    }
    let mut i: usize = 0;
    while i < nb
        invariant
            bb_state_fits(items@, capacity, index as int, old_loads),
            nb == bins.len(),
            searching == (on_search(items@, capacity, choice, index as int, old_bins)
                && branch_bound_outcome(items@, capacity, old_best as int, old_sol)),
            index < items.len(),
            item == items@[index as int],
            bins_view(bins@) == old_bins,
            old_bins == bins_view(old(bins)@),
            loads@ == old_loads,
            old_loads == old(loads)@,
            loads_match(old_loads, old_bins),
            rest_neg(items@, index as int) == rest_neg(items@, index + 1) + if item < 0 {
                item as int
            } else {
                0
            },
            rest_pos(items@, index as int) == rest_pos(items@, index + 1) + if item > 0 {
                item as int
            } else {
                0
            },
            rest_neg(items@, index + 1) <= 0 <= rest_pos(items@, index + 1),
            capacity > 0,
            old_best == *old(best),
            *best <= old_best,
            i <= nb,
            searching ==> branch_bound_outcome(items@, capacity, *best as int, bins_view(best_solution@)),
            old_sol == bins_view(old(best_solution)@),
            search_update(
                old_best as int,
                old_sol,
                *best as int,
                bins_view(best_solution@),
                old_bins,
                items@.skip(index as int),
            ),
            forall|x: i32| used_loads@.contains(x) <==> used.contains(x as int),
            bb_tries(items@, capacity, index as int, old_bins, i as int, used, *best as int, bins_view(
                best_solution@,
            )) == bb_search(items@, capacity, index as int, old_bins, old_best as int, old_sol),
        decreases nb - i,
    {
        proof {
            assert(i32::MIN <= old_loads[i as int] + rest_neg(items@, index as int));
            assert(old_loads[i as int] + rest_pos(items@, index as int) <= i32::MAX);
        }
        let load = loads[i];
        if load + item <= capacity {
            if !used_loads.contains(&load) {
                used_loads.insert(load);
                proof {
                    used = used.insert(load as int);
                }
                let ghost next = choice.push(i as int);
                proof {
                    assert(next.drop_last() =~= choice);
                    assert(old_loads[i as int] == seq_sum(old_bins[i as int]));
                    if searching {
                        assert(may_place(old_bins, item, capacity, i as int));
                        assert(on_search(items@, capacity, next, index + 1, place(old_bins, item, i as int)));
                    }
                    lemma_place_loads(old_loads, old_bins, item, i as int);
                    lemma_seq_sum_update(old_loads, i as int, (load + item) as i32);
                }
                bins[i].push(item);
                loads.set(i, load + item);
                proof {
                    assert(bins_view(bins@) =~= place(old_bins, item, i as int));
                    assert(loads@ == old_loads.update(i as int, (load + item) as i32));
                    assert forall|k: int| 0 <= k < loads@.len() implies i32::MIN <= #[trigger] loads@[k]
                        + rest_neg(items@, index + 1) && loads@[k] + rest_pos(items@, index + 1)
                        <= i32::MAX by {
                        if k != i {
                            assert(loads@[k] == old_loads[k]);
                        }
                    }
                    assert(bb_state_fits(items@, capacity, index + 1, loads@));
                }
                let ghost before = *best;
                let ghost before_sol = bins_view(best_solution@);
                bin_packing_branch_bound_recursive(
                    items,
                    bins,
                    capacity,
                    index + 1,
                    loads,
                    best,
                    best_solution,
                    Ghost(next),
                );
                proof {
                    lemma_place_skip(old_bins, items@, index as int, i as int);
                }
                let ghost pushed = bins@;
                let _ = bins[i].pop();
                loads.set(i, load);
                proof {
                    assert forall|k: int| 0 <= k < old_bins.len() implies #[trigger] bins_view(
                        bins@,
                    )[k] == old_bins[k] by {
                        assert(bins_view(pushed)[k] == place(old_bins, item, i as int)[k]);
                        if k == i {
                            assert(bins@[k]@ =~= pushed[k]@.drop_last());
                        } else {
                            assert(bins@[k] == pushed[k]);
                        }
                    }
                    assert(bins_view(bins@) =~= old_bins);
                    assert(loads@ =~= old_loads);
                }
            }
        }
        i = i + 1;
    }
    let ghost next = choice.push(nb as int);
    proof {
        assert(next.drop_last() =~= choice);
        lemma_seq_sum_push(old_loads, item);
        if searching {
            assert(on_search(items@, capacity, next, index + 1, place(old_bins, item, nb as int)));
        }
    }
    let mut fresh: Vec<i32> = Vec::new();
    fresh.push(item);
    bins.push(fresh);
    loads.push(item);
    proof {
        assert(bins_view(bins@) =~= place(old_bins, item, nb as int));
        assert(seq_sum(seq![item]) == item) by {
            lemma_seq_sum_push(Seq::<i32>::empty(), item);
            assert(Seq::<i32>::empty().push(item) =~= seq![item]);
        }
        assert(loads_match(loads@, bins_view(bins@)));
        assert forall|k: int| 0 <= k < loads@.len() implies i32::MIN <= #[trigger] loads@[k]
            + rest_neg(items@, index + 1) && loads@[k] + rest_pos(items@, index + 1)
            <= i32::MAX by {
            if k < old_loads.len() {
                assert(loads@[k] == old_loads[k]);
            }
        }
        assert(bb_state_fits(items@, capacity, index + 1, loads@));
    }
    bin_packing_branch_bound_recursive(
        items,
        bins,
        capacity,
        index + 1,
        loads,
        best,
        best_solution,
        Ghost(next),
    );
    proof {
        lemma_place_skip(old_bins, items@, index as int, nb as int);
    }
    let ghost pushed = bins@;
    let ghost pushed_loads = loads@;
    let _ = bins.pop();
    let _ = loads.pop();
    proof {
        assert(bins@ =~= pushed.drop_last());
        assert forall|k: int| 0 <= k < old_bins.len() implies #[trigger] bins_view(bins@)[k]
            == old_bins[k] by {
            assert(bins_view(pushed)[k] == place(old_bins, item, nb as int)[k]);
        }
        assert(bins_view(bins@) =~= old_bins);
        assert(loads@ =~= old_loads);
    }
}

/// The fewest bins found by branch and bound: the search of
/// `bin_packing_backtracking` over the items taken largest first, where a
/// partial packing is cut off once its bins plus a bound on the bins that
/// the remaining sizes need (their sum plus the capacity less one, divided by
/// the capacity) reach the best count found so far, and where an item is tried in only one of
/// several open bins with equal load. Returns the best count found (at most
/// one bin per item) and its bins, or no bins when nothing beats one bin per
/// item.
pub fn bin_packing_branch_bound(items: &Vec<i32>, capacity: i32) -> (r: (usize, Vec<Vec<i32>>))
    requires
        bb_sizes_fit(items@, capacity),
    ensures
        (r.0 as int, bins_view(r.1@)) == bb_result(largest_first(items@), capacity),
        branch_bound_outcome(largest_first(items@), capacity, r.0 as int, bins_view(r.1@)),
{
    let ghost given = items@;
    let mut items = items.clone();
    assert(items@ =~= given);
    sort_descending(&mut items);
    proof {
        lemma_largest_first(given, items@);
    }
    proof {
        vstd::seq_lib::to_multiset_len(items@);
        vstd::seq_lib::to_multiset_len(given);
        lemma_same_pos_neg(items@, given);
    }
    let mut best = items.len();
    let mut bins: Vec<Vec<i32>> = Vec::new();
    let mut loads: Vec<i32> = Vec::new();
    let mut best_solution: Vec<Vec<i32>> = Vec::new();
    proof {
        assert(bins_view(bins@) =~= pack(items@, Seq::empty()));
        assert(items@.take(0) =~= Seq::<i32>::empty());
        assert(loads_match(loads@, bins_view(bins@)));
        assert(bb_state_fits(items@, capacity, 0, loads@));
        assert(bins_view(best_solution@).len() == 0);
    }
    let ghost start_bins = bins_view(bins@);
    let ghost start_sol = bins_view(best_solution@);
    proof {
        assert(start_bins =~= Seq::<Seq<i32>>::empty());
        assert(start_sol =~= Seq::<Seq<i32>>::empty());
    }
    bin_packing_branch_bound_recursive(
        &items,
        &mut bins,
        capacity,
        0,
        &mut loads,
        &mut best,
        &mut best_solution,
        Ghost(Seq::empty()),
    );
    proof {
        assert((best as int, bins_view(best_solution@)) == bb_result(items@, capacity));
    }
    (best, best_solution)
}



/// On the same items, branch and bound never reports fewer bins than the
/// exhaustive search: what it reports is either one bin per item or the bins
/// of a packing that the exhaustive search also considers, and the exhaustive
/// search reports no more than either.
pub proof fn lemma_branch_bound_not_below_backtracking(
    items: Seq<i32>,
    cap: i32,
    exhaustive: int,
    exhaustive_bins: Seq<Seq<i32>>,
    bb: int,
    bb_bins: Seq<Seq<i32>>,
)
    requires
        search_outcome(largest_first(items), cap, exhaustive, exhaustive_bins),
        branch_bound_outcome(largest_first(items), cap, bb, bb_bins),
    ensures
        exhaustive <= bb,
{
    let sorted = largest_first(items);
    if !(bb == sorted.len() && bb_bins.len() == 0) {
        let c = choose|c: Seq<int>|
            is_packing(sorted, cap, c) && pack(sorted, c).len() == bb && bb_bins == #[trigger] pack(
                sorted,
                c,
            );
        assert(exhaustive <= pack(sorted, c).len());
    }
}

// ---------------------------------------------------------------------------
// Best fit
// ---------------------------------------------------------------------------

/// Bin `k` still has room for `item`.
pub open spec fn fits(bins: Seq<Seq<i32>>, item: i32, cap: i32, k: int) -> bool {
    seq_sum(bins[k]) + item <= cap
}

/// Among the first `k` bins that have room for `item` and would hold a
/// positive total with it, the fullest one (the first of equally full ones).
pub open spec fn fullest_fitting(bins: Seq<Seq<i32>>, item: i32, cap: i32, k: int) -> Option<int>
    decreases k,
{
    if k <= 0 {
        None
    } else {
        let prev = fullest_fitting(bins, item, cap, k - 1);
        let load = seq_sum(bins[k - 1]) + item;
        if fits(bins, item, cap, k - 1) && load > 0 && match prev {
            None => true,
            Some(t) => load > seq_sum(bins[t]) + item,
        } {
            Some(k - 1)
        } else {
            prev
        }
    }
}

/// The bin that the best-fit rule picks for `item`: a new bin when no bin has
/// room; otherwise the fullest bin with room, or bin 0 when every bin with
/// room would hold a total of at most 0 with the item.
pub open spec fn best_fit_target(bins: Seq<Seq<i32>>, item: i32, cap: i32) -> int {
    if !exists|k: int| 0 <= k < bins.len() && fits(bins, item, cap, k) {
        bins.len() as int
    } else {
        match fullest_fitting(bins, item, cap, bins.len() as int) {
            Some(t) => t,
            None => 0,
        }
    }
}

/// The bins of the best-fit rule after the first `k >= 1` items: the first
/// item opens a bin, and each later one goes where `best_fit_target` says.
pub open spec fn best_fit_pack(items: Seq<i32>, cap: i32, k: int) -> Seq<Seq<i32>>
    decreases k,
{
    if k <= 1 {
        seq![seq![items[0]]]
    } else {
        let prev = best_fit_pack(items, cap, k - 1);
        place(prev, items[k - 1], best_fit_target(prev, items[k - 1], cap))
    }
}

proof fn lemma_fullest_fitting_valid(bins: Seq<Seq<i32>>, item: i32, cap: i32, k: int)
    requires
        0 <= k <= bins.len(),
    ensures
        match fullest_fitting(bins, item, cap, k) {
            None => true,
            Some(t) => 0 <= t < k && fits(bins, item, cap, t) && seq_sum(bins[t]) + item > 0,
        },
    decreases k,
{
    if k > 0 {
        lemma_fullest_fitting_valid(bins, item, cap, k - 1);
    }
}

/// Among the first `k` bins, the one `fullest_fitting` picks is at least as
/// full as every bin with room for `item`, and fuller than every such bin
/// before it; when it picks none, every bin with room would hold a total of
/// at most 0 with the item.
proof fn lemma_fullest_fitting_max(bins: Seq<Seq<i32>>, item: i32, cap: i32, k: int)
    requires
        0 <= k <= bins.len(),
    ensures
        match fullest_fitting(bins, item, cap, k) {
            None => forall|j: int|
                0 <= j < k && fits(bins, item, cap, j) ==> #[trigger] seq_sum(bins[j]) + item <= 0,
            Some(t) => forall|j: int|
                0 <= j < k && fits(bins, item, cap, j) ==> #[trigger] seq_sum(bins[j]) <= seq_sum(
                    bins[t],
                ) && (j < t ==> seq_sum(bins[j]) < seq_sum(bins[t])),
        },
    decreases k,
{
    if k > 0 {
        lemma_fullest_fitting_max(bins, item, cap, k - 1);
        lemma_fullest_fitting_valid(bins, item, cap, k - 1);
    }
}

/// The best-fit rule, item by item: the first item opens a bin; a later item
/// that no bin has room for opens a new bin; otherwise, when some bin with
/// room would hold a positive total with it, it goes into a bin with room
/// that is at least as full as every other bin with room and fuller than
/// every such bin before it (the fullest, the first of equally full ones),
/// and every other bin stays as it was; when every bin with room would hold
/// a total of at most 0 with it, it goes into bin 0.
pub proof fn lemma_best_fit_places_in_fullest(items: Seq<i32>, cap: i32, k: int)
    requires
        1 <= k < items.len(),
    ensures
        best_fit_pack(items, cap, 1) == seq![seq![items[0]]],
        ({
            let prev = best_fit_pack(items, cap, k);
            let next = best_fit_pack(items, cap, k + 1);
            let item = items[k];
            &&& (forall|j: int| 0 <= j < prev.len() ==> #[trigger] seq_sum(prev[j]) + item > cap)
                ==> next == prev.push(seq![item])
            &&& (exists|j: int|
                0 <= j < prev.len() && #[trigger] seq_sum(prev[j]) + item <= cap && seq_sum(prev[j])
                    + item > 0) ==> exists|t: int|
                0 <= t < prev.len() && seq_sum(prev[t]) + item <= cap && next == prev.update(
                    t,
                    prev[t].push(item),
                ) && forall|j: int|
                    0 <= j < prev.len() && seq_sum(prev[j]) + item <= cap ==> #[trigger] seq_sum(
                        prev[j],
                    ) <= seq_sum(prev[t]) && (j < t ==> seq_sum(prev[j]) < seq_sum(prev[t]))
            &&& (exists|j: int| 0 <= j < prev.len() && #[trigger] seq_sum(prev[j]) + item <= cap)
                && (forall|j: int|
                0 <= j < prev.len() && seq_sum(prev[j]) + item <= cap ==> #[trigger] seq_sum(prev[j])
                    + item <= 0) ==> next == prev.update(0, prev[0].push(item))
        }),
{
    let prev = best_fit_pack(items, cap, k);
    let item = items[k];
    let n = prev.len() as int;
    lemma_fullest_fitting_max(prev, item, cap, n);
    lemma_fullest_fitting_valid(prev, item, cap, n);
    assert(best_fit_pack(items, cap, k + 1) == place(prev, item, best_fit_target(prev, item, cap)));
    if forall|j: int| 0 <= j < prev.len() ==> #[trigger] seq_sum(prev[j]) + item > cap {
        assert(!exists|j: int| 0 <= j < prev.len() && fits(prev, item, cap, j));
    }
    if exists|j: int|
        0 <= j < prev.len() && #[trigger] seq_sum(prev[j]) + item <= cap && seq_sum(prev[j]) + item
            > 0 {
        let j0 = choose|j: int|
            0 <= j < prev.len() && #[trigger] seq_sum(prev[j]) + item <= cap && seq_sum(prev[j])
                + item > 0;
        assert(fits(prev, item, cap, j0));
        match fullest_fitting(prev, item, cap, n) {
            None => {
                assert(seq_sum(prev[j0]) + item <= 0);
            },
            Some(t) => {
                assert forall|j: int|
                    0 <= j < prev.len() && seq_sum(prev[j]) + item <= cap implies #[trigger] seq_sum(
                        prev[j],
                    ) <= seq_sum(prev[t]) && (j < t ==> seq_sum(prev[j]) < seq_sum(prev[t])) by {
                    assert(fits(prev, item, cap, j));
                }
            },
        }
    }
    if (exists|j: int| 0 <= j < prev.len() && #[trigger] seq_sum(prev[j]) + item <= cap) && (
    forall|j: int|
        0 <= j < prev.len() && seq_sum(prev[j]) + item <= cap ==> #[trigger] seq_sum(prev[j]) + item
            <= 0) {
        let j0 = choose|j: int| 0 <= j < prev.len() && #[trigger] seq_sum(prev[j]) + item <= cap;
        assert(fits(prev, item, cap, j0));
        match fullest_fitting(prev, item, cap, n) {
            None => {},
            Some(t) => {
                assert(seq_sum(prev[t]) + item <= cap);
            },
        }
    }
}

/// Packs the items by the best-fit rule, in the given order: the first item
/// opens a bin; each later item goes into the fullest bin that still has room
/// for it (see `best_fit_target`), or into a new bin when none has room.
pub fn bin_packing_first_fit(objects_sizes: &Vec<i32>, bin_capacity: i32) -> (r: Vec<Vec<i32>>)
    requires
        objects_sizes.len() >= 1,
    ensures
        bins_view(r@) == best_fit_pack(objects_sizes@, bin_capacity, objects_sizes.len() as int),
        bins_multiset(bins_view(r@)) == objects_sizes@.to_multiset(),
        no_empty_bins(bins_view(r@)),
        sizes_between(objects_sizes@, bin_capacity) ==> within_capacity(bins_view(r@), bin_capacity),
{
    proof {
        lemma_best_fit_pack_valid(objects_sizes@, bin_capacity, objects_sizes.len() as int);
        assert(objects_sizes@.take(objects_sizes.len() as int) =~= objects_sizes@);
    }
    let mut bins_content: Vec<Vec<i32>> = Vec::new();
    let mut first: Vec<i32> = Vec::new();
    first.push(objects_sizes[0]);
    bins_content.push(first);
    proof {
        assert(bins_view(bins_content@) =~= best_fit_pack(objects_sizes@, bin_capacity, 1));
    }
    let mut k: usize = 1;
    while k < objects_sizes.len()
        invariant
            1 <= k <= objects_sizes.len(),
            bins_view(bins_content@) == best_fit_pack(objects_sizes@, bin_capacity, k as int),
        decreases objects_sizes.len() - k,
    {
        let object = objects_sizes[k];
        let ghost bins = bins_view(bins_content@);
        let mut new_bin = true;
        let mut bin_remaining_space: i128 = bin_capacity as i128;
        let mut selected_bin_index: usize = 0;
        let mut i: usize = 0;
        while i < bins_content.len()
            invariant
                bins == bins_view(bins_content@),
                i <= bins_content.len(),
                new_bin <==> !exists|j: int| 0 <= j < i && fits(bins, object, bin_capacity, j),
                match fullest_fitting(bins, object, bin_capacity, i as int) {
                    None => selected_bin_index == 0 && bin_remaining_space == bin_capacity,
                    Some(t) => selected_bin_index == t && bin_remaining_space == bin_capacity - (
                    seq_sum(bins[t]) + object),
                },
                -0x1_0000_0000_0000_0000_0000_0001 <= bin_remaining_space
                    <= 0x1_0000_0000_0000_0000_0000_0001,
            decreases bins_content.len() - i,
        {
            let content_size = bin_sum(&bins_content[i]);
            assert(bins[i as int] == bins_content@[i as int]@);
            proof {
                lemma_fullest_fitting_valid(bins, object, bin_capacity, i as int);
                assert(fullest_fitting(bins, object, bin_capacity, i + 1) == {
                    let prev = fullest_fitting(bins, object, bin_capacity, i as int);
                    let load = seq_sum(bins[i as int]) + object;
                    if fits(bins, object, bin_capacity, i as int) && load > 0 && match prev {
                        None => true,
                        Some(t) => load > seq_sum(bins[t]) + object,
                    } {
                        Some(i as int)
                    } else {
                        prev
                    }
                });
            }
            if content_size + object as i128 <= bin_capacity as i128 {
                new_bin = false;
                if bin_remaining_space > bin_capacity as i128 - content_size - object as i128 {
                    selected_bin_index = i;
                    bin_remaining_space = bin_capacity as i128 - content_size - object as i128;
                }
            }
            i = i + 1;
        }
        proof {
            lemma_fullest_fitting_valid(bins, object, bin_capacity, bins.len() as int);
        }
        if new_bin {
            let mut fresh: Vec<i32> = Vec::new();
            fresh.push(object);
            bins_content.push(fresh);
            proof {
                assert(bins_view(bins_content@) =~= place(bins, object, bins.len() as int));
            }
        } else {
            bins_content[selected_bin_index].push(object);
            proof {
                assert(bins_view(bins_content@) =~= place(
                    bins,
                    object,
                    selected_bin_index as int,
                ));
            }
        }
        k = k + 1;
    }
    bins_content
}

// ---------------------------------------------------------------------------
// First fit
// ---------------------------------------------------------------------------

/// The first bin at index `k` or later that has room for `item`, or the
/// number of bins when none has.
pub open spec fn first_fit_target(bins: Seq<Seq<i32>>, item: i32, cap: i32, k: int) -> int
    decreases bins.len() - k,
{
    if k >= bins.len() {
        bins.len() as int
    } else if fits(bins, item, cap, k) {
        k
    } else {
        first_fit_target(bins, item, cap, k + 1)
    }
}

/// The bins of the first-fit rule after the first `k` items: each item goes
/// into the first bin that still has room for it, or into a new bin.
pub open spec fn first_fit_pack(items: Seq<i32>, cap: i32, k: int) -> Seq<Seq<i32>>
    decreases k,
{
    if k <= 0 {
        Seq::empty()
    } else {
        let prev = first_fit_pack(items, cap, k - 1);
        place(prev, items[k - 1], first_fit_target(prev, items[k - 1], cap, 0))
    }
}


/// The number of items held by the bins.
pub open spec fn items_count(bins: Seq<Seq<i32>>) -> int
    decreases bins.len(),
{
    if bins.len() == 0 {
        0
    } else {
        items_count(bins.drop_last()) + bins.last().len()
    }
}

proof fn lemma_items_count_update(bins: Seq<Seq<i32>>, t: int, x: Seq<i32>)
    requires
        0 <= t < bins.len(),
    ensures
        items_count(bins.update(t, x)) == items_count(bins) - bins[t].len() + x.len(),
    decreases bins.len(),
{
    if t < bins.len() - 1 {
        lemma_items_count_update(bins.drop_last(), t, x);
        assert(bins.update(t, x).drop_last() =~= bins.drop_last().update(t, x));
    } else {
        assert(bins.update(t, x).drop_last() =~= bins.drop_last());
    }
}

/// Placing an item adds one to the number of items held.
proof fn lemma_items_count_place(bins: Seq<Seq<i32>>, item: i32, t: int)
    ensures
        items_count(place(bins, item, t)) == items_count(bins) + 1,
{
    if 0 <= t < bins.len() {
        lemma_items_count_update(bins, t, bins[t].push(item));
    } else {
        assert(bins.push(seq![item]).drop_last() =~= bins);
    }
}

/// Every sum that the first-fit rule forms for `item` on `bins` (a bin's sum
/// plus the item, for each bin up to the one it picks) fits in an `i32`.
pub open spec fn scan_fits(bins: Seq<Seq<i32>>, item: i32, cap: i32) -> bool {
    forall|t: int|
        0 <= t < bins.len() && t <= first_fit_target(bins, item, cap, 0) ==> i32::MIN <= #[trigger] seq_sum(
            bins[t],
        ) + item <= i32::MAX
}

/// Every sum that first fit forms while it places `items` one after the other
/// into `bins` fits in an `i32`.
pub open spec fn first_fit_sums_fit(bins: Seq<Seq<i32>>, items: Seq<i32>, cap: i32) -> bool {
    forall|k: int|
        0 <= k < items.len() ==> #[trigger] scan_fits(first_fit_into(bins, items, cap, k), items[k], cap)
}

/// Puts `item` into the first bin that has room for it, or into a new bin,
/// keeping `sums` the sums of the bins.
fn place_first_fit(bins: &mut Vec<Vec<i32>>, sums: &mut Vec<i32>, item: i32, capacity: i32)
    requires
        loads_match(old(sums)@, bins_view(old(bins)@)),
        scan_fits(bins_view(old(bins)@), item, capacity),
    ensures
        bins_view(final(bins)@) == place(
            bins_view(old(bins)@),
            item,
            first_fit_target(bins_view(old(bins)@), item, capacity, 0),
        ),
        loads_match(final(sums)@, bins_view(final(bins)@)),
{
    let ghost cur = bins_view(bins@);
    let nb0 = bins.len();
    let mut target: usize = nb0;
    let mut i: usize = 0;
    while i < nb0
        invariant
            cur == bins_view(bins@),
            nb0 == bins.len(),
            loads_match(sums@, cur),
            scan_fits(cur, item, capacity),
            i <= nb0,
            target == nb0 ==> first_fit_target(cur, item, capacity, 0) == first_fit_target(
                cur,
                item,
                capacity,
                i as int,
            ),
            target < nb0 ==> target == first_fit_target(cur, item, capacity, 0),
            target <= nb0,
        decreases nb0 - i,
    {
        if target == nb0 {
            proof {
                lemma_first_fit_target_fits(cur, item, capacity, i as int);
                assert(i32::MIN <= seq_sum(cur[i as int]) + item <= i32::MAX);
            }
            if sums[i] + item <= capacity {
                target = i;
            }
        }
        i = i + 1;
    }
    if target < nb0 {
        proof {
            assert(i32::MIN <= seq_sum(cur[target as int]) + item <= i32::MAX);
            lemma_seq_sum_push(cur[target as int], item);
        }
        bins[target].push(item);
        let s = sums[target] + item;
        sums.set(target, s);
        proof {
            assert(bins_view(bins@) =~= place(cur, item, target as int));
            lemma_place_loads_any(sums@, cur, item, target as int);
        }
    } else {
        let mut fresh: Vec<i32> = Vec::new();
        fresh.push(item);
        bins.push(fresh);
        sums.push(item);
        proof {
            assert(bins_view(bins@) =~= place(cur, item, cur.len() as int));
            lemma_seq_sum_single(item);
            assert(loads_match(sums@, bins_view(bins@)));
        }
    }
}

proof fn lemma_seq_sum_single(item: i32)
    ensures
        seq_sum(seq![item]) == item,
{
    lemma_seq_sum_push(Seq::<i32>::empty(), item);
    assert(Seq::<i32>::empty().push(item) =~= seq![item]);
}

/// Packs the items by the first-fit rule, in the given order, and returns
/// the bins with the sum of each bin.
pub fn first_fit(items: &Vec<i32>, capacity: i32) -> (r: (Vec<Vec<i32>>, Vec<i32>))
    requires
        first_fit_sums_fit(Seq::empty(), items@, capacity),
    ensures
        bins_view(r.0@) == first_fit_pack(items@, capacity, items.len() as int),
        loads_match(r.1@, bins_view(r.0@)),
        bins_multiset(bins_view(r.0@)) == items@.to_multiset(),
        no_empty_bins(bins_view(r.0@)),
        sizes_between(items@, capacity) ==> within_capacity(bins_view(r.0@), capacity),
{
    proof {
        lemma_first_fit_pack_valid(items@, capacity, items.len() as int);
        assert(items@.take(items.len() as int) =~= items@);
        lemma_first_fit_pack_into(items@, capacity, items.len() as int);
    }
    let mut bins: Vec<Vec<i32>> = Vec::new();
    let mut sums: Vec<i32> = Vec::new();
    proof {
        assert(bins_view(bins@) =~= Seq::<Seq<i32>>::empty());
    }
    place_all_first_fit(&mut bins, &mut sums, capacity, items);
    (bins, sums)
}

/// First fit from no bins is first fit into no bins.
proof fn lemma_first_fit_pack_into(items: Seq<i32>, cap: i32, k: int)
    ensures
        first_fit_pack(items, cap, k) == first_fit_into(Seq::empty(), items, cap, k),
    decreases k,
{
    if k > 0 {
        lemma_first_fit_pack_into(items, cap, k - 1);
    }
}

proof fn lemma_place_loads_any(loads: Seq<i32>, bins: Seq<Seq<i32>>, item: i32, target: int)
    requires
        0 <= target < bins.len(),
        loads.len() == bins.len(),
        forall|k: int| 0 <= k < loads.len() && k != target ==> #[trigger] loads[k] == seq_sum(bins[k]),
        loads[target] == seq_sum(bins[target].push(item)),
    ensures
        loads_match(loads, place(bins, item, target)),
{
}


// ---------------------------------------------------------------------------
// Cost of a packing
// ---------------------------------------------------------------------------

/// The free space left in the bins: the sum over the bins of the capacity
/// minus the bin's sum.
pub open spec fn unused_space(sums: Seq<i32>, cap: i32) -> int
    decreases sums.len(),
{
    if sums.len() == 0 {
        0
    } else {
        unused_space(sums.drop_last(), cap) + (cap - sums.last())
    }
}

/// Every term and every partial sum of the free space fits in an `i32`.
pub open spec fn unused_space_fits(sums: Seq<i32>, cap: i32) -> bool {
    &&& forall|k: int| 0 <= k < sums.len() ==> i32::MIN <= cap - #[trigger] sums[k] <= i32::MAX
    &&& forall|k: int|
        0 <= k <= sums.len() ==> i32::MIN <= #[trigger] unused_space(sums.take(k), cap) <= i32::MAX
}

/// The cost that the annealing heuristic minimises: 10 000 per bin, plus the
/// free space left in the bins.
pub fn compute_cost(bins: &Vec<Vec<i32>>, bin_sums: &Vec<i32>, capacity: i32) -> (r: i64)
    requires
        unused_space_fits(bin_sums@, capacity),
        bins.len() * 10_000 <= i64::MAX,
        bins.len() * 10_000 + unused_space(bin_sums@, capacity) <= i64::MAX,
    ensures
        r == bins.len() * 10_000 + unused_space(bin_sums@, capacity),
{
    let mut unused: i32 = 0;
    let mut k: usize = 0;
    assert(bin_sums@.take(0) =~= Seq::<i32>::empty());
    while k < bin_sums.len()
        invariant
            unused_space_fits(bin_sums@, capacity),
            k <= bin_sums.len(),
            unused == unused_space(bin_sums@.take(k as int), capacity),
        decreases bin_sums.len() - k,
    {
        proof {
            assert(bin_sums@.take(k + 1).drop_last() =~= bin_sums@.take(k as int));
            assert(i32::MIN <= unused_space(bin_sums@.take(k + 1), capacity) <= i32::MAX);
            assert(i32::MIN <= capacity - bin_sums@[k as int] <= i32::MAX);
        }
        let term = capacity - bin_sums[k];
        unused = unused + term;
        k = k + 1;
    }
    assert(bin_sums@.take(bin_sums.len() as int) =~= bin_sums@);
    assert(bins.len() * 10_000 <= i64::MAX);
    (bins.len() as i64) * 10_000 + unused as i64
}

/// The items of the bins, bin after bin.
pub open spec fn all_items(bins: Seq<Seq<i32>>) -> Seq<i32>
    decreases bins.len(),
{
    if bins.len() == 0 {
        Seq::empty()
    } else {
        all_items(bins.drop_last()) + bins.last()
    }
}

proof fn lemma_seq_sum_concat(a: Seq<i32>, b: Seq<i32>)
    ensures
        seq_sum(a + b) == seq_sum(a) + seq_sum(b),
    decreases b.len(),
{
    if b.len() > 0 {
        lemma_seq_sum_concat(a, b.drop_last());
        assert((a + b).drop_last() =~= a + b.drop_last());
    } else {
        assert(a + b =~= a);
    }
}

proof fn lemma_all_items(loads: Seq<i32>, bins: Seq<Seq<i32>>)
    requires
        loads_match(loads, bins),
    ensures
        all_items(bins).to_multiset() == bins_multiset(bins),
        seq_sum(loads) == seq_sum(all_items(bins)),
    decreases bins.len(),
{
    broadcast use {vstd::multiset::group_multiset_properties, vstd::multiset::group_multiset_axioms};
    if bins.len() == 0 {
        vstd::seq_lib::to_multiset_len(Seq::<i32>::empty());
        assert(Seq::<i32>::empty().to_multiset() =~= Multiset::empty()) by {
            assert forall|v: i32| #[trigger] Seq::<i32>::empty().to_multiset().count(v) == 0 by {
                vstd::seq_lib::to_multiset_contains(Seq::<i32>::empty(), v);
            }
        }
    } else {
        let dl = bins.drop_last();
        let ld = loads.drop_last();
        assert(loads_match(ld, dl));
        lemma_all_items(ld, dl);
        vstd::seq_lib::lemma_multiset_commutative(all_items(dl), bins.last());
        lemma_seq_sum_concat(all_items(dl), bins.last());
        assert(loads.last() == seq_sum(bins.last()));
    }
}

proof fn lemma_unused_space(sums: Seq<i32>, cap: i32)
    ensures
        unused_space(sums, cap) == sums.len() * cap - seq_sum(sums),
    decreases sums.len(),
{
    if sums.len() > 0 {
        lemma_unused_space(sums.drop_last(), cap);
        assert(sums.len() * cap == (sums.len() - 1) * cap + cap) by (nonlinear_arith);
    }
}

/// Fewer bins always cost less: for two packings of the same items whose
/// sums are the bin sums, the one with fewer bins has the smaller cost, as
/// long as a bin's 10 000 outweighs a negative capacity (`capacity > -10 000`).
/// The cost is `(10 000 + capacity)` per bin less the sum of all the items.
pub proof fn lemma_fewer_bins_cost_less(
    bins1: Seq<Seq<i32>>,
    sums1: Seq<i32>,
    bins2: Seq<Seq<i32>>,
    sums2: Seq<i32>,
    capacity: i32,
)
    requires
        capacity > -10_000,
        loads_match(sums1, bins1),
        loads_match(sums2, bins2),
        bins_multiset(bins1) == bins_multiset(bins2),
        bins1.len() < bins2.len(),
    ensures
        bins1.len() * 10_000 + unused_space(sums1, capacity) < bins2.len() * 10_000 + unused_space(
            sums2,
            capacity,
        ),
{
    lemma_all_items(sums1, bins1);
    lemma_all_items(sums2, bins2);
    lemma_sorted_same_sum(all_items(bins1), all_items(bins2));
    lemma_unused_space(sums1, capacity);
    lemma_unused_space(sums2, capacity);
    let l1 = bins1.len() as int;
    let l2 = bins2.len() as int;
    assert(l1 * 10_000 + l1 * capacity < l2 * 10_000 + l2 * capacity) by (nonlinear_arith)
        requires
            l1 < l2,
            capacity > -10_000,
    ;
}

// ---------------------------------------------------------------------------
// The items held by the bins, as a multiset
// ---------------------------------------------------------------------------

/// All the sizes held by the bins, counted with multiplicity.
pub open spec fn bins_multiset(bins: Seq<Seq<i32>>) -> Multiset<i32>
    decreases bins.len(),
{
    if bins.len() == 0 {
        Multiset::empty()
    } else {
        bins_multiset(bins.drop_last()).add(bins.last().to_multiset())
    }
}

proof fn lemma_bins_multiset_update(bins: Seq<Seq<i32>>, t: int, x: Seq<i32>)
    requires
        0 <= t < bins.len(),
    ensures
        bins_multiset(bins.update(t, x)).add(bins[t].to_multiset()) == bins_multiset(bins).add(
            x.to_multiset(),
        ),
    decreases bins.len(),
{
    broadcast use {vstd::multiset::group_multiset_properties, vstd::multiset::group_multiset_axioms};
    let u = bins.update(t, x);
    let dl = bins.drop_last();
    assert(bins_multiset(u) == bins_multiset(u.drop_last()).add(u.last().to_multiset()));
    assert(bins_multiset(bins) == bins_multiset(dl).add(bins.last().to_multiset()));
    if t < bins.len() - 1 {
        lemma_bins_multiset_update(dl, t, x);
        assert(u.drop_last() =~= dl.update(t, x));
        assert(u.last() == bins.last());
        assert(dl[t] == bins[t]);
        let a = bins_multiset(dl.update(t, x));
        let b = bins_multiset(dl);
        let l = bins.last().to_multiset();
        let bt = bins[t].to_multiset();
        let xm = x.to_multiset();
        assert(a.add(bt) == b.add(xm));
        assert(a.add(l).add(bt) =~= b.add(l).add(xm)) by {
            assert forall|v: i32| #[trigger] a.add(l).add(bt).count(v) == b.add(l).add(xm).count(v) by {
                assert(a.add(bt).count(v) == b.add(xm).count(v));
            }
        }
    } else {
        assert(u.drop_last() =~= dl);
        assert(u.last() == x);
        assert(bins[t] == bins.last());
        let b = bins_multiset(dl);
        let bt = bins[t].to_multiset();
        let xm = x.to_multiset();
        assert(b.add(xm).add(bt) =~= b.add(bt).add(xm));
    }
}

/// Placing an item adds it to the items held.
proof fn lemma_bins_multiset_place(bins: Seq<Seq<i32>>, item: i32, t: int)
    ensures
        bins_multiset(place(bins, item, t)) == bins_multiset(bins).insert(item),
{
    broadcast use {vstd::multiset::group_multiset_properties, vstd::multiset::group_multiset_axioms};
    if 0 <= t < bins.len() {
        let p = place(bins, item, t);
        lemma_bins_multiset_update(bins, t, bins[t].push(item));
        vstd::seq_lib::to_multiset_build(bins[t], item);
        let bt = bins[t].to_multiset();
        assert forall|v: i32| #[trigger] bins_multiset(p).count(v) == bins_multiset(bins).insert(
            item,
        ).count(v) by {
            assert(bins_multiset(p).add(bt).count(v) == bins_multiset(bins).add(
                bins[t].push(item).to_multiset(),
            ).count(v));
        }
        assert(bins_multiset(p) =~= bins_multiset(bins).insert(item));
    } else {
        let p = bins.push(seq![item]);
        assert(p.drop_last() =~= bins);
        vstd::seq_lib::to_multiset_build(Seq::<i32>::empty(), item);
        assert(Seq::<i32>::empty().push(item) =~= seq![item]);
        vstd::seq_lib::to_multiset_len(Seq::<i32>::empty());
        let e = Seq::<i32>::empty().to_multiset();
        assert(e.len() == 0);
        assert(e =~= Multiset::empty()) by {
            assert forall|v: i32| #[trigger] e.count(v) == 0 by {
                vstd::seq_lib::to_multiset_contains(Seq::<i32>::empty(), v);
            }
        }
        assert(bins_multiset(p) == bins_multiset(bins).add(seq![item].to_multiset()));
        assert(bins_multiset(p) =~= bins_multiset(bins).insert(item));
    }
}

/// Removing bin `t` by moving the last bin into its place removes exactly
/// the items of bin `t`.
proof fn lemma_bins_multiset_swap_remove(bins: Seq<Seq<i32>>, t: int)
    requires
        0 <= t < bins.len(),
    ensures
        bins_multiset(bins.update(t, bins.last()).drop_last()).add(bins[t].to_multiset())
            == bins_multiset(bins),
{
    broadcast use {vstd::multiset::group_multiset_properties, vstd::multiset::group_multiset_axioms};
    let u = bins.update(t, bins.last());
    lemma_bins_multiset_update(bins, t, bins.last());
    assert(u.last() == bins.last());
    assert(bins_multiset(u) == bins_multiset(u.drop_last()).add(u.last().to_multiset()));
    let l = bins.last().to_multiset();
    let bt = bins[t].to_multiset();
    let r = bins_multiset(u.drop_last());
    assert forall|v: i32| #[trigger] r.add(bt).count(v) == bins_multiset(bins).count(v) by {
        assert(bins_multiset(u).add(bt).count(v) == bins_multiset(bins).add(l).count(v));
    }
    assert(r.add(bt) =~= bins_multiset(bins));
}


// ---------------------------------------------------------------------------
// What the heuristics guarantee
// ---------------------------------------------------------------------------

/// No bin is empty.
pub open spec fn no_empty_bins(bins: Seq<Seq<i32>>) -> bool {
    forall|b: int| 0 <= b < bins.len() ==> #[trigger] bins[b].len() > 0
}

/// No bin holds more than the capacity.
pub open spec fn within_capacity(bins: Seq<Seq<i32>>, cap: i32) -> bool {
    forall|b: int| 0 <= b < bins.len() ==> #[trigger] seq_sum(bins[b]) <= cap
}

/// Every size is in `0..=cap`.
pub open spec fn sizes_between(items: Seq<i32>, cap: i32) -> bool {
    forall|k: int| 0 <= k < items.len() ==> 0 <= #[trigger] items[k] <= cap
}

proof fn lemma_take_push(items: Seq<i32>, k: int)
    requires
        0 <= k < items.len(),
    ensures
        items.take(k + 1) == items.take(k).push(items[k]),
        items.take(k + 1).to_multiset() == items.take(k).to_multiset().insert(items[k]),
{
    assert(items.take(k + 1) =~= items.take(k).push(items[k]));
    vstd::seq_lib::to_multiset_build(items.take(k), items[k]);
}

proof fn lemma_place_keeps(bins: Seq<Seq<i32>>, item: i32, cap: i32, t: int)
    requires
        no_empty_bins(bins),
        within_capacity(bins, cap),
        forall|b: int| 0 <= b < bins.len() ==> 0 <= #[trigger] seq_sum(bins[b]),
        0 <= item <= cap,
        t == bins.len() || (0 <= t < bins.len() && seq_sum(bins[t]) + item <= cap),
    ensures
        no_empty_bins(place(bins, item, t)),
        within_capacity(place(bins, item, t), cap),
        forall|b: int|
            0 <= b < place(bins, item, t).len() ==> 0 <= #[trigger] seq_sum(place(bins, item, t)[b]),
{
    let p = place(bins, item, t);
    if t < bins.len() {
        lemma_seq_sum_push(bins[t], item);
    } else {
        lemma_seq_sum_push(Seq::<i32>::empty(), item);
        assert(Seq::<i32>::empty().push(item) =~= seq![item]);
    }
    assert forall|b: int| 0 <= b < p.len() implies #[trigger] p[b].len() > 0 && seq_sum(p[b]) <= cap
        && 0 <= seq_sum(p[b]) by {
        if b != t {
            assert(p[b] == bins[b]);
        }
    }
}

/// The first-fit rule packs every item exactly once, leaves no bin empty,
/// and, when every size is in `0..=cap`, overfills no bin.
pub proof fn lemma_first_fit_pack_valid(items: Seq<i32>, cap: i32, k: int)
    requires
        0 <= k <= items.len(),
    ensures
        bins_multiset(first_fit_pack(items, cap, k)) == items.take(k).to_multiset(),
        no_empty_bins(first_fit_pack(items, cap, k)),
        sizes_between(items, cap) ==> within_capacity(first_fit_pack(items, cap, k), cap),
    decreases k,
{
    let bins = first_fit_pack(items, cap, k);
    if k == 0 {
        assert(items.take(0) =~= Seq::<i32>::empty());
        vstd::seq_lib::to_multiset_len(Seq::<i32>::empty());
        broadcast use {vstd::multiset::group_multiset_properties, vstd::multiset::group_multiset_axioms};
        assert(items.take(0).to_multiset() =~= Multiset::empty()) by {
            assert forall|v: i32| #[trigger] items.take(0).to_multiset().count(v) == 0 by {
                vstd::seq_lib::to_multiset_contains(items.take(0), v);
            }
        }
    } else {
        lemma_first_fit_pack_valid(items, cap, k - 1);
        let prev = first_fit_pack(items, cap, k - 1);
        let item = items[k - 1];
        let t = first_fit_target(prev, item, cap, 0);
        lemma_bins_multiset_place(prev, item, t);
        lemma_take_push(items, k - 1);
        lemma_first_fit_target_fits(prev, item, cap, 0);
        let p = place(prev, item, t);
        if t < prev.len() {
            lemma_seq_sum_push(prev[t], item);
        } else {
            lemma_seq_sum_push(Seq::<i32>::empty(), item);
            assert(Seq::<i32>::empty().push(item) =~= seq![item]);
        }
        assert forall|b: int| 0 <= b < p.len() implies #[trigger] p[b].len() > 0 by {
            if b != t {
                assert(p[b] == prev[b]);
            }
        }
        if sizes_between(items, cap) {
            assert(0 <= items[k - 1] <= cap);
            assert forall|b: int| 0 <= b < p.len() implies #[trigger] seq_sum(p[b]) <= cap by {
                if b != t {
                    assert(p[b] == prev[b]);
                }
            }
        }
    }
}

proof fn lemma_first_fit_target_fits(bins: Seq<Seq<i32>>, item: i32, cap: i32, k: int)
    requires
        0 <= k,
    ensures
        first_fit_target(bins, item, cap, k) == bins.len() || (k <= first_fit_target(bins, item, cap, k)
            < bins.len() && fits(bins, item, cap, first_fit_target(bins, item, cap, k))),
    decreases bins.len() - k,
{
    if k < bins.len() && !fits(bins, item, cap, k) {
        lemma_first_fit_target_fits(bins, item, cap, k + 1);
    }
}

/// The best-fit rule packs every item exactly once, leaves no bin empty,
/// and, when every size is in `0..=cap`, overfills no bin.
pub proof fn lemma_best_fit_pack_valid(items: Seq<i32>, cap: i32, k: int)
    requires
        1 <= k <= items.len(),
    ensures
        bins_multiset(best_fit_pack(items, cap, k)) == items.take(k).to_multiset(),
        no_empty_bins(best_fit_pack(items, cap, k)),
        sizes_between(items, cap) ==> within_capacity(best_fit_pack(items, cap, k), cap) && forall|
            b: int,
        |
            0 <= b < best_fit_pack(items, cap, k).len() ==> 0 <= #[trigger] seq_sum(
                best_fit_pack(items, cap, k)[b],
            ),
    decreases k,
{
    broadcast use {vstd::multiset::group_multiset_properties, vstd::multiset::group_multiset_axioms};
    if k == 1 {
        let b = seq![seq![items[0]]];
        assert(b.drop_last() =~= Seq::<Seq<i32>>::empty());
        lemma_take_push(items, 0);
        assert(items.take(0) =~= Seq::<i32>::empty());
        lemma_seq_sum_push(Seq::<i32>::empty(), items[0]);
        assert(Seq::<i32>::empty().push(items[0]) =~= seq![items[0]]);
        assert(items.take(1) =~= seq![items[0]]);
        assert(bins_multiset(b) == bins_multiset(Seq::<Seq<i32>>::empty()).add(
            seq![items[0]].to_multiset(),
        ));
        assert(bins_multiset(b) =~= items.take(1).to_multiset());
    } else {
        lemma_best_fit_pack_valid(items, cap, k - 1);
        let prev = best_fit_pack(items, cap, k - 1);
        let item = items[k - 1];
        let t = best_fit_target(prev, item, cap);
        lemma_bins_multiset_place(prev, item, t);
        lemma_take_push(items, k - 1);
        lemma_fullest_fitting_valid(prev, item, cap, prev.len() as int);
        let p = place(prev, item, t);
        if t < prev.len() {
            lemma_seq_sum_push(prev[t], item);
        } else {
            lemma_seq_sum_push(Seq::<i32>::empty(), item);
            assert(Seq::<i32>::empty().push(item) =~= seq![item]);
        }
        assert(0 <= t <= prev.len()) by {
            if exists|j: int| 0 <= j < prev.len() && fits(prev, item, cap, j) {
                assert(prev.len() > 0);
            }
        }
        assert forall|b: int| 0 <= b < p.len() implies #[trigger] p[b].len() > 0 by {
            if b != t {
                assert(p[b] == prev[b]);
            }
        }
        if sizes_between(items, cap) {
            assert(0 <= items[k - 1] <= cap);
            if t < prev.len() && fullest_fitting(prev, item, cap, prev.len() as int) is None {
                let j = choose|j: int| 0 <= j < prev.len() && fits(prev, item, cap, j);
                assert(fits(prev, item, cap, j));
                lemma_no_positive_fit(prev, item, cap, prev.len() as int, j);
                assert(item == 0);
            }
            assert(t == prev.len() || (0 <= t < prev.len() && seq_sum(prev[t]) + item <= cap));
            lemma_place_keeps(prev, item, cap, t);
        }
    }
}

proof fn lemma_no_positive_fit(bins: Seq<Seq<i32>>, item: i32, cap: i32, k: int, j: int)
    requires
        0 <= j < k <= bins.len(),
        fits(bins, item, cap, j),
        fullest_fitting(bins, item, cap, k) is None,
    ensures
        seq_sum(bins[j]) + item <= 0,
    decreases k,
{
    if j < k - 1 {
        lemma_no_positive_fit(bins, item, cap, k - 1, j);
    }
}


// ---------------------------------------------------------------------------
// The moves of the annealing heuristic
// ---------------------------------------------------------------------------

/// `s` without the element at `t`: the last element takes its place (what
/// `Vec::swap_remove` does).
pub open spec fn swap_removed<T>(s: Seq<T>, t: int) -> Seq<T> {
    s.update(t, s.last()).drop_last()
}

/// Every size held by the bins is in `0..=cap`.
pub open spec fn all_sizes_between(bins: Seq<Seq<i32>>, cap: i32) -> bool {
    forall|b: int, j: int|
        0 <= b < bins.len() && 0 <= j < bins[b].len() ==> 0 <= #[trigger] bins[b][j] <= cap
}

/// The bins after exchanging item `i1` of bin `b1` with item `i2` of bin `b2`.
pub open spec fn swap_move(bins: Seq<Seq<i32>>, b1: int, i1: int, b2: int, i2: int) -> Seq<
    Seq<i32>,
> {
    bins.update(b1, bins[b1].update(i1, bins[b2][i2])).update(b2, bins[b2].update(i2, bins[b1][i1]))
}

/// The bins after moving item `idx` of bin `src` to the end of bin `dst`
/// (the last item of `src` takes its place), and dropping `src` if that
/// leaves it empty (the last bin takes its place).
pub open spec fn relocate_move(bins: Seq<Seq<i32>>, src: int, idx: int, dst: int) -> Seq<
    Seq<i32>,
> {
    let mid = bins.update(dst, bins[dst].push(bins[src][idx])).update(
        src,
        swap_removed(bins[src], idx),
    );
    if mid[src].len() == 0 {
        swap_removed(mid, src)
    } else {
        mid
    }
}

/// `bins` after the first `k` of `items` are placed one after the other by
/// the first-fit rule.
pub open spec fn first_fit_into(bins: Seq<Seq<i32>>, items: Seq<i32>, cap: i32, k: int) -> Seq<
    Seq<i32>,
>
    decreases k,
{
    if k <= 0 {
        bins
    } else {
        let prev = first_fit_into(bins, items, cap, k - 1);
        place(prev, items[k - 1], first_fit_target(prev, items[k - 1], cap, 0))
    }
}

/// `after` is one move of the annealing heuristic away from `before`: no
/// change; an exchange of two items of different bins that leaves both bins
/// within the capacity; a move of an item into another bin that has room for
/// it (dropping its old bin if that empties); or the items of one bin, in some
/// order, placed by first fit into the other bins.
pub open spec fn is_neighbor(before: Seq<Seq<i32>>, after: Seq<Seq<i32>>, cap: i32) -> bool {
    ||| after == before
    ||| exists|b1: int, i1: int, b2: int, i2: int|
        0 <= b1 < before.len() && 0 <= b2 < before.len() && b1 != b2 && 0 <= i1 < before[b1].len()
            && 0 <= i2 < before[b2].len() && seq_sum(before[b1]) - before[b1][i1] + before[b2][i2]
            <= cap && seq_sum(before[b2]) - before[b2][i2] + before[b1][i1] <= cap && after
            == #[trigger] swap_move(before, b1, i1, b2, i2)
    ||| exists|src: int, idx: int, dst: int|
        0 <= src < before.len() && 0 <= dst < before.len() && src != dst && 0 <= idx
            < before[src].len() && seq_sum(before[dst]) + before[src][idx] <= cap && after
            == #[trigger] relocate_move(before, src, idx, dst)
    ||| exists|b: int, order: Seq<i32>|
        0 <= b < before.len() && order.to_multiset() == before[b].to_multiset() && after
            == #[trigger] first_fit_into(swap_removed(before, b), order, cap, order.len() as int)
}

/// What every move keeps: the same sizes are held, as many of them, `sums`
/// are the bin sums, no bin becomes empty, and, when every size is in
/// `0..=cap`, no bin that was within the capacity ends up over it.
pub open spec fn move_keeps(
    before: Seq<Seq<i32>>,
    after: Seq<Seq<i32>>,
    sums: Seq<i32>,
    cap: i32,
) -> bool {
    &&& bins_multiset(after) == bins_multiset(before)
    &&& loads_match(sums, after)
    &&& items_count(after) == items_count(before)
    &&& no_empty_bins(before) ==> no_empty_bins(after)
    &&& within_capacity(before, cap) && all_sizes_between(before, cap) ==> within_capacity(
        after,
        cap,
    ) && all_sizes_between(after, cap)
}

proof fn lemma_seq_swap_removed(s: Seq<i32>, t: int)
    requires
        0 <= t < s.len(),
    ensures
        swap_removed(s, t).len() == s.len() - 1,
        swap_removed(s, t).to_multiset().insert(s[t]) == s.to_multiset(),
        seq_sum(swap_removed(s, t)) == seq_sum(s) - s[t],
        forall|j: int|
            0 <= j < s.len() - 1 ==> #[trigger] swap_removed(s, t)[j] == s[j] || swap_removed(
                s,
                t,
            )[j] == s[s.len() - 1],
{
    broadcast use {vstd::multiset::group_multiset_properties, vstd::multiset::group_multiset_axioms};
    let u = s.update(t, s.last());
    let r = u.drop_last();
    vstd::seq_lib::to_multiset_update(s, t, s.last());
    assert(r.push(u.last()) =~= u);
    vstd::seq_lib::to_multiset_build(r, u.last());
    assert(u.last() == s.last());
    assert(s.contains(s[t]));
    vstd::seq_lib::to_multiset_contains(s, s[t]);
    let ms = s.to_multiset();
    assert forall|v: i32| #[trigger] r.to_multiset().insert(s[t]).count(v) == ms.count(v) by {
        assert(u.to_multiset().count(v) == r.to_multiset().count(v) + (if v == u.last() {
            1int
        } else {
            0int
        }));
        assert(u.to_multiset().count(v) == ms.insert(u.last()).remove(s[t]).count(v));
        assert(ms.insert(u.last()).count(s[t]) >= 1);
    }
    assert(r.to_multiset().insert(s[t]) =~= ms);
    lemma_seq_sum_update(s, t, s.last());
    lemma_seq_sum_push(r, u.last());
}

proof fn lemma_items_count_swap_remove(bins: Seq<Seq<i32>>, t: int)
    requires
        0 <= t < bins.len(),
    ensures
        items_count(swap_removed(bins, t)) == items_count(bins) - bins[t].len(),
{
    let u = bins.update(t, bins.last());
    lemma_items_count_update(bins, t, bins.last());
    assert(u.last() == bins.last());
}

/// The sums formed when item `i1` of bin `b1` and item `i2` of bin `b2`
/// are tried for an exchange (each bin's sum less its item, then plus the
/// other item) fit in an `i32`.
pub open spec fn swap_sums_fit(bins: Seq<Seq<i32>>, b1: int, i1: int, b2: int, i2: int) -> bool {
    &&& i32::MIN <= seq_sum(bins[b1]) - bins[b1][i1] <= i32::MAX
    &&& i32::MIN <= seq_sum(bins[b1]) - bins[b1][i1] + bins[b2][i2] <= i32::MAX
    &&& i32::MIN <= seq_sum(bins[b2]) - bins[b2][i2] <= i32::MAX
    &&& i32::MIN <= seq_sum(bins[b2]) - bins[b2][i2] + bins[b1][i1] <= i32::MAX
}

/// Exchanges item `i1` of bin `b1` with item `i2` of bin `b2`, when both
/// bins stay within the capacity; else changes nothing. `sums` are the bin
/// sums, and stay so.
pub fn swap_items(
    bins: &mut Vec<Vec<i32>>,
    sums: &mut Vec<i32>,
    capacity: i32,
    b1: usize,
    i1: usize,
    b2: usize,
    i2: usize,
)
    requires
        loads_match(old(sums)@, bins_view(old(bins)@)),
        b1 < old(bins).len(),
        b2 < old(bins).len(),
        b1 != b2,
        i1 < old(bins)@[b1 as int].len(),
        i2 < old(bins)@[b2 as int].len(),
        swap_sums_fit(bins_view(old(bins)@), b1 as int, i1 as int, b2 as int, i2 as int),
    ensures
        move_keeps(bins_view(old(bins)@), bins_view(final(bins)@), final(sums)@, capacity),
        bins_view(final(bins)@) == if seq_sum(bins_view(old(bins)@)[b1 as int]) - bins_view(
            old(bins)@,
        )[b1 as int][i1 as int] + bins_view(old(bins)@)[b2 as int][i2 as int] <= capacity && seq_sum(
            bins_view(old(bins)@)[b2 as int],
        ) - bins_view(old(bins)@)[b2 as int][i2 as int] + bins_view(old(bins)@)[b1 as int][i1 as int]
            <= capacity {
            swap_move(bins_view(old(bins)@), b1 as int, i1 as int, b2 as int, i2 as int)
        } else {
            bins_view(old(bins)@)
        },
{
    let ghost before = bins_view(bins@);
    let item1 = bins[b1][i1];
    let item2 = bins[b2][i2];
    let ghost s1 = before[b1 as int];
    let ghost s2 = before[b2 as int];
    proof {
        assert(item1 == s1[i1 as int]);
        assert(item2 == s2[i2 as int]);
        assert(sums@[b1 as int] == seq_sum(s1));
        assert(sums@[b2 as int] == seq_sum(s2));
    }
    let new_sum_b1 = sums[b1] - item1 + item2;
    let new_sum_b2 = sums[b2] - item2 + item1;
    if new_sum_b1 <= capacity && new_sum_b2 <= capacity {
        bins[b1].set(i1, item2);
        bins[b2].set(i2, item1);
        sums.set(b1, new_sum_b1);
        sums.set(b2, new_sum_b2);
        proof {
            let after = bins_view(bins@);
            assert(after =~= swap_move(before, b1 as int, i1 as int, b2 as int, i2 as int));
            lemma_swap_move_keeps(before, b1 as int, i1 as int, b2 as int, i2 as int, capacity);
            lemma_seq_sum_update(s1, i1 as int, item2);
            lemma_seq_sum_update(s2, i2 as int, item1);
            assert(loads_match(sums@, after));
        }
    }
}

/// The bins after the exchange of item `i1` of bin `b1` with item `i2` of
/// bin `b2` is tried: exchanged when both bins stay within the capacity,
/// else unchanged.
pub open spec fn swap_outcome(bins: Seq<Seq<i32>>, b1: int, i1: int, b2: int, i2: int, cap: i32) -> Seq<
    Seq<i32>,
> {
    if seq_sum(bins[b1]) - bins[b1][i1] + bins[b2][i2] <= cap && seq_sum(bins[b2]) - bins[b2][i2]
        + bins[b1][i1] <= cap {
        swap_move(bins, b1, i1, b2, i2)
    } else {
        bins
    }
}

/// `after` is what an exchange between bins `b1` and `b2` of `before` gives:
/// `before` itself when one of the two bins is empty, else the outcome of
/// trying the exchange of some item of `b1` with some item of `b2`.
pub open spec fn swap_drawn(before: Seq<Seq<i32>>, after: Seq<Seq<i32>>, b1: int, b2: int, cap: i32) -> bool {
    ||| (before[b1].len() == 0 || before[b2].len() == 0) && after == before
    ||| exists|i1: int, i2: int|
        0 <= i1 < before[b1].len() && 0 <= i2 < before[b2].len() && after == #[trigger] swap_outcome(
            before,
            b1,
            i1,
            b2,
            i2,
            cap,
        )
}

proof fn lemma_swap_move_keeps(bins: Seq<Seq<i32>>, b1: int, i1: int, b2: int, i2: int, cap: i32)
    requires
        0 <= b1 < bins.len(),
        0 <= b2 < bins.len(),
        b1 != b2,
        0 <= i1 < bins[b1].len(),
        0 <= i2 < bins[b2].len(),
        seq_sum(bins[b1]) - bins[b1][i1] + bins[b2][i2] <= cap,
        seq_sum(bins[b2]) - bins[b2][i2] + bins[b1][i1] <= cap,
    ensures
        bins_multiset(swap_move(bins, b1, i1, b2, i2)) == bins_multiset(bins),
        items_count(swap_move(bins, b1, i1, b2, i2)) == items_count(bins),
        no_empty_bins(bins) ==> no_empty_bins(swap_move(bins, b1, i1, b2, i2)),
        within_capacity(bins, cap) && all_sizes_between(bins, cap) ==> within_capacity(
            swap_move(bins, b1, i1, b2, i2),
            cap,
        ) && all_sizes_between(swap_move(bins, b1, i1, b2, i2), cap),
{
    broadcast use {vstd::multiset::group_multiset_properties, vstd::multiset::group_multiset_axioms};
    let x1 = bins[b1][i1];
    let x2 = bins[b2][i2];
    let n1 = bins[b1].update(i1, x2);
    let n2 = bins[b2].update(i2, x1);
    let u1 = bins.update(b1, n1);
    let u2 = u1.update(b2, n2);
    assert(u2 == swap_move(bins, b1, i1, b2, i2));
    lemma_bins_multiset_update(bins, b1, n1);
    lemma_bins_multiset_update(u1, b2, n2);
    assert(u1[b2] == bins[b2]);
    vstd::seq_lib::to_multiset_update(bins[b1], i1, x2);
    vstd::seq_lib::to_multiset_update(bins[b2], i2, x1);
    assert(bins[b1].contains(x1));
    assert(bins[b2].contains(x2));
    vstd::seq_lib::to_multiset_contains(bins[b1], x1);
    vstd::seq_lib::to_multiset_contains(bins[b2], x2);
    let m = bins_multiset(bins);
    let m1 = bins_multiset(u1);
    let m2 = bins_multiset(u2);
    assert forall|v: i32| #[trigger] m2.count(v) == m.count(v) by {
        assert(m1.add(bins[b1].to_multiset()).count(v) == m.add(n1.to_multiset()).count(v));
        assert(m2.add(bins[b2].to_multiset()).count(v) == m1.add(n2.to_multiset()).count(v));
    }
    assert(m2 =~= m);
    lemma_items_count_update(bins, b1, n1);
    lemma_items_count_update(u1, b2, n2);
    if no_empty_bins(bins) {
        assert forall|b: int| 0 <= b < u2.len() implies #[trigger] u2[b].len() > 0 by {
            assert(u2[b].len() == bins[b].len());
        }
    }
    if within_capacity(bins, cap) && all_sizes_between(bins, cap) {
        lemma_seq_sum_update(bins[b1], i1, x2);
        lemma_seq_sum_update(bins[b2], i2, x1);
        assert forall|b: int| 0 <= b < u2.len() implies #[trigger] seq_sum(u2[b]) <= cap by {
            if b != b1 && b != b2 {
                assert(u2[b] == bins[b]);
            }
        }
        assert forall|b: int, j: int| 0 <= b < u2.len() && 0 <= j < u2[b].len() implies 0
            <= #[trigger] u2[b][j] <= cap by {
            if b == b1 {
                if j != i1 {
                    assert(u2[b][j] == bins[b1][j]);
                }
            } else if b == b2 {
                if j != i2 {
                    assert(u2[b][j] == bins[b2][j]);
                }
            } else {
                assert(u2[b][j] == bins[b][j]);
            }
        }
    }
}

/// Dropping an empty bin (the last bin takes its place) keeps everything
/// held, the sizes' bounds and the capacity.
proof fn lemma_drop_empty_bin(bins: Seq<Seq<i32>>, t: int, cap: i32)
    requires
        0 <= t < bins.len(),
        bins[t].len() == 0,
    ensures
        bins_multiset(swap_removed(bins, t)) == bins_multiset(bins),
        items_count(swap_removed(bins, t)) == items_count(bins),
        (forall|b: int| 0 <= b < bins.len() && b != t ==> #[trigger] bins[b].len() > 0)
            ==> no_empty_bins(swap_removed(bins, t)),
        within_capacity(bins, cap) ==> within_capacity(swap_removed(bins, t), cap),
        all_sizes_between(bins, cap) ==> all_sizes_between(swap_removed(bins, t), cap),
{
    broadcast use {vstd::multiset::group_multiset_properties, vstd::multiset::group_multiset_axioms};
    let r = swap_removed(bins, t);
    lemma_bins_multiset_swap_remove(bins, t);
    lemma_items_count_swap_remove(bins, t);
    vstd::seq_lib::to_multiset_len(bins[t]);
    let e = bins[t].to_multiset();
    assert(e =~= Multiset::empty()) by {
        assert forall|v: i32| #[trigger] e.count(v) == 0 by {
            vstd::seq_lib::to_multiset_contains(bins[t], v);
        }
    }
    assert(bins_multiset(r).add(e) =~= bins_multiset(r));
    assert forall|j: int| 0 <= j < r.len() implies #[trigger] r[j] == bins[j] || (j == t
        && r[j] == bins[bins.len() - 1] && bins.len() - 1 != t) by {}
    if within_capacity(bins, cap) {
        assert forall|b: int| 0 <= b < r.len() implies #[trigger] seq_sum(r[b]) <= cap by {
            if r[b] != bins[b] {
                assert(seq_sum(bins[bins.len() - 1]) <= cap);
            }
        }
    }
    if all_sizes_between(bins, cap) {
        assert forall|b: int, j: int| 0 <= b < r.len() && 0 <= j < r[b].len() implies 0
            <= #[trigger] r[b][j] <= cap by {
            if r[b] == bins[b] {
                assert(r[b][j] == bins[b][j]);
            } else {
                assert(r[b][j] == bins[bins.len() - 1][j]);
            }
        }
    }
    if forall|b: int| 0 <= b < bins.len() && b != t ==> #[trigger] bins[b].len() > 0 {
        assert forall|b: int| 0 <= b < r.len() implies #[trigger] r[b].len() > 0 by {
            if r[b] == bins[b] {
                if b == t {
                    assert(r[b] == bins[bins.len() - 1]);
                    assert(bins[bins.len() - 1].len() > 0);
                } else {
                    assert(bins[b].len() > 0);
                }
            } else {
                assert(bins[bins.len() - 1].len() > 0);
            }
        }
    }
}

/// Dropping entry `t` of the sums and of the bins alike keeps them matched.
proof fn lemma_loads_swap_removed(loads: Seq<i32>, bins: Seq<Seq<i32>>, t: int)
    requires
        0 <= t < bins.len(),
        loads_match(loads, bins),
    ensures
        loads_match(swap_removed(loads, t), swap_removed(bins, t)),
{
    let l = swap_removed(loads, t);
    let r = swap_removed(bins, t);
    assert forall|k: int| 0 <= k < l.len() implies #[trigger] l[k] == seq_sum(r[k]) by {
        if k == t {
            assert(l[k] == loads[loads.len() - 1]);
            assert(r[k] == bins[bins.len() - 1]);
        } else {
            assert(l[k] == loads[k]);
            assert(r[k] == bins[k]);
        }
    }
}

/// Moving item `idx` of bin `src` to the end of bin `dst`, before any empty
/// bin is dropped: everything held stays, and the bounds and the capacity
/// are kept.
proof fn lemma_relocate_mid(bins: Seq<Seq<i32>>, src: int, idx: int, dst: int, cap: i32)
    requires
        0 <= src < bins.len(),
        0 <= dst < bins.len(),
        src != dst,
        0 <= idx < bins[src].len(),
        seq_sum(bins[dst]) + bins[src][idx] <= cap,
    ensures
        ({
            let mid = bins.update(dst, bins[dst].push(bins[src][idx])).update(
                src,
                swap_removed(bins[src], idx),
            );
            &&& bins_multiset(mid) == bins_multiset(bins)
            &&& items_count(mid) == items_count(bins)
            &&& mid[dst].len() > 0
            &&& forall|b: int| 0 <= b < bins.len() && b != src && b != dst ==> #[trigger] mid[b] == bins[b]
            &&& seq_sum(mid[dst]) == seq_sum(bins[dst]) + bins[src][idx]
            &&& seq_sum(mid[src]) == seq_sum(bins[src]) - bins[src][idx]
            &&& within_capacity(bins, cap) && all_sizes_between(bins, cap) ==> within_capacity(mid, cap)
                && all_sizes_between(mid, cap)
        }),
{
    broadcast use {vstd::multiset::group_multiset_properties, vstd::multiset::group_multiset_axioms};
    let x = bins[src][idx];
    let nd = bins[dst].push(x);
    let ns = swap_removed(bins[src], idx);
    let u1 = bins.update(dst, nd);
    let mid = u1.update(src, ns);
    lemma_bins_multiset_update(bins, dst, nd);
    lemma_bins_multiset_update(u1, src, ns);
    assert(u1[src] == bins[src]);
    vstd::seq_lib::to_multiset_build(bins[dst], x);
    lemma_seq_swap_removed(bins[src], idx);
    lemma_seq_sum_push(bins[dst], x);
    let m = bins_multiset(bins);
    let m1 = bins_multiset(u1);
    let m2 = bins_multiset(mid);
    let sm = bins[src].to_multiset();
    let nsm = ns.to_multiset();
    assert forall|v: i32| #[trigger] m2.count(v) == m.count(v) by {
        assert(m1.add(bins[dst].to_multiset()).count(v) == m.add(nd.to_multiset()).count(v));
        assert(m2.add(sm).count(v) == m1.add(nsm).count(v));
        assert(nsm.insert(x).count(v) == sm.count(v));
    }
    assert(m2 =~= m);
    lemma_items_count_update(bins, dst, nd);
    lemma_items_count_update(u1, src, ns);
    if within_capacity(bins, cap) && all_sizes_between(bins, cap) {
        assert(0 <= x);
        assert forall|b: int| 0 <= b < mid.len() implies #[trigger] seq_sum(mid[b]) <= cap by {
            if b != src && b != dst {
                assert(mid[b] == bins[b]);
            }
        }
        assert forall|b: int, j: int| 0 <= b < mid.len() && 0 <= j < mid[b].len() implies 0
            <= #[trigger] mid[b][j] <= cap by {
            if b == src {
                assert(ns[j] == bins[src][j] || ns[j] == bins[src][bins[src].len() - 1]);
            } else if b == dst {
                if j < bins[dst].len() {
                    assert(mid[b][j] == bins[dst][j]);
                }
            } else {
                assert(mid[b][j] == bins[b][j]);
            }
        }
    }
}

/// What a relocation keeps, once a bin that it empties is dropped.
proof fn lemma_relocate_move_keeps(bins: Seq<Seq<i32>>, src: int, idx: int, dst: int, cap: i32)
    requires
        0 <= src < bins.len(),
        0 <= dst < bins.len(),
        src != dst,
        0 <= idx < bins[src].len(),
        seq_sum(bins[dst]) + bins[src][idx] <= cap,
    ensures
        bins_multiset(relocate_move(bins, src, idx, dst)) == bins_multiset(bins),
        items_count(relocate_move(bins, src, idx, dst)) == items_count(bins),
        no_empty_bins(bins) ==> no_empty_bins(relocate_move(bins, src, idx, dst)),
        within_capacity(bins, cap) && all_sizes_between(bins, cap) ==> within_capacity(
            relocate_move(bins, src, idx, dst),
            cap,
        ) && all_sizes_between(relocate_move(bins, src, idx, dst), cap),
{
    let mid = bins.update(dst, bins[dst].push(bins[src][idx])).update(
        src,
        swap_removed(bins[src], idx),
    );
    lemma_relocate_mid(bins, src, idx, dst, cap);
    if mid[src].len() == 0 {
        lemma_drop_empty_bin(mid, src, cap);
        if no_empty_bins(bins) {
            assert forall|b: int| 0 <= b < mid.len() && b != src implies #[trigger] mid[b].len()
                > 0 by {
                if b != dst {
                    assert(mid[b] == bins[b]);
                }
            }
        }
    } else {
        if no_empty_bins(bins) {
            assert forall|b: int| 0 <= b < mid.len() implies #[trigger] mid[b].len() > 0 by {
                if b != dst && b != src {
                    assert(mid[b] == bins[b]);
                }
            }
        }
    }
}

/// The sums formed when item `idx` of bin `src` is tried for a move to bin
/// `dst` (the sum of `dst` plus the item, and, when that is within the
/// capacity, the sum of `src` less the item) fit in an `i32`.
pub open spec fn relocate_sums_fit(bins: Seq<Seq<i32>>, src: int, idx: int, dst: int, cap: i32) -> bool {
    &&& i32::MIN <= seq_sum(bins[dst]) + bins[src][idx] <= i32::MAX
    &&& seq_sum(bins[dst]) + bins[src][idx] <= cap ==> i32::MIN <= seq_sum(bins[src]) - bins[src][idx]
        <= i32::MAX
}

/// Every sum that any move of the annealing heuristic can form on `bins`
/// fits in an `i32`: for every exchange and every move of an item that can
/// be drawn, and for every bin and every order of its items put back by
/// first fit into the other bins.
pub open spec fn moves_fit(bins: Seq<Seq<i32>>, cap: i32) -> bool {
    &&& forall|b1: int, i1: int, b2: int, i2: int|
        0 <= b1 < bins.len() && 0 <= b2 < bins.len() && b1 != b2 && 0 <= i1 < bins[b1].len() && 0
            <= i2 < bins[b2].len() ==> #[trigger] swap_sums_fit(bins, b1, i1, b2, i2)
    &&& forall|src: int, idx: int, dst: int|
        0 <= src < bins.len() && 0 <= dst < bins.len() && src != dst && 0 <= idx < bins[src].len()
            ==> #[trigger] relocate_sums_fit(bins, src, idx, dst, cap)
    &&& forall|b: int, order: Seq<i32>|
        0 <= b < bins.len() && order.to_multiset() == bins[b].to_multiset() ==> #[trigger] first_fit_sums_fit(
            swap_removed(bins, b),
            order,
            cap,
        )
}

/// Moves item `idx` of bin `src` to the end of bin `dst` (the last item of
/// `src` takes its place), when `dst` has room for it, and drops `src` when
/// that leaves it empty (the last bin takes its place); else changes
/// nothing. `sums` are the bin sums, and stay so.
pub fn relocate_item(
    bins: &mut Vec<Vec<i32>>,
    sums: &mut Vec<i32>,
    capacity: i32,
    src: usize,
    idx: usize,
    dst: usize,
)
    requires
        loads_match(old(sums)@, bins_view(old(bins)@)),
        src < old(bins).len(),
        dst < old(bins).len(),
        src != dst,
        idx < old(bins)@[src as int].len(),
        relocate_sums_fit(bins_view(old(bins)@), src as int, idx as int, dst as int, capacity),
    ensures
        move_keeps(bins_view(old(bins)@), bins_view(final(bins)@), final(sums)@, capacity),
        bins_view(final(bins)@) == if seq_sum(bins_view(old(bins)@)[dst as int]) + bins_view(
            old(bins)@,
        )[src as int][idx as int] <= capacity {
            relocate_move(bins_view(old(bins)@), src as int, idx as int, dst as int)
        } else {
            bins_view(old(bins)@)
        },
{
    let ghost before = bins_view(bins@);
    let item = bins[src][idx];
    let ghost s_src = before[src as int];
    let ghost s_dst = before[dst as int];
    proof {
        assert(item == s_src[idx as int]);
        lemma_seq_swap_removed(s_src, idx as int);
        lemma_seq_sum_push(s_dst, item);
        assert(sums@[src as int] == seq_sum(s_src));
        assert(sums@[dst as int] == seq_sum(s_dst));
    }
    let dst_sum = sums[dst] + item;
    if dst_sum <= capacity {
        let src_sum = sums[src] - item;
        bins[dst].push(item);
        sums.set(dst, dst_sum);
        bins[src].swap_remove(idx);
        sums.set(src, src_sum);
        let ghost mid = before.update(dst as int, s_dst.push(item)).update(
            src as int,
            swap_removed(s_src, idx as int),
        );
        proof {
            assert(bins_view(bins@) =~= mid);
            assert(loads_match(sums@, mid));
            lemma_relocate_move_keeps(before, src as int, idx as int, dst as int, capacity);
        }
        if bins[src].len() == 0 {
            bins.swap_remove(src);
            sums.swap_remove(src);
            proof {
                assert(bins_view(bins@) =~= swap_removed(mid, src as int));
                lemma_loads_swap_removed(old(sums)@.update(dst as int, dst_sum).update(
                    src as int,
                    src_sum,
                ), mid, src as int);
            }
        }
        proof {
            assert(bins_view(bins@) == relocate_move(before, src as int, idx as int, dst as int));
        }
    }
}

/// The bins after the move of item `idx` of bin `src` to bin `dst` is
/// tried: moved when `dst` has room for it, else unchanged.
pub open spec fn relocate_outcome(bins: Seq<Seq<i32>>, src: int, idx: int, dst: int, cap: i32) -> Seq<
    Seq<i32>,
> {
    if seq_sum(bins[dst]) + bins[src][idx] <= cap {
        relocate_move(bins, src, idx, dst)
    } else {
        bins
    }
}

/// `after` is what a move from bin `src` to bin `dst` of `before` gives:
/// `before` itself when `src` is empty, else the outcome of trying to move
/// some item of `src`.
pub open spec fn relocate_drawn(before: Seq<Seq<i32>>, after: Seq<Seq<i32>>, src: int, dst: int, cap: i32) -> bool {
    ||| before[src].len() == 0 && after == before
    ||| exists|idx: int|
        0 <= idx < before[src].len() && after == #[trigger] relocate_outcome(before, src, idx, dst, cap)
}

/// Placing items by first fit into existing bins adds exactly those items,
/// empties no bin, and, when every size is in `0..=cap`, overfills no bin.
proof fn lemma_first_fit_into_valid(bins: Seq<Seq<i32>>, order: Seq<i32>, cap: i32, k: int)
    requires
        0 <= k <= order.len(),
    ensures
        bins_multiset(first_fit_into(bins, order, cap, k)) == bins_multiset(bins).add(
            order.take(k).to_multiset(),
        ),
        items_count(first_fit_into(bins, order, cap, k)) == items_count(bins) + k,
        no_empty_bins(bins) ==> no_empty_bins(first_fit_into(bins, order, cap, k)),
        within_capacity(bins, cap) && all_sizes_between(bins, cap) && sizes_between(order, cap)
            ==> within_capacity(first_fit_into(bins, order, cap, k), cap) && all_sizes_between(
            first_fit_into(bins, order, cap, k),
            cap,
        ),
    decreases k,
{
    broadcast use {vstd::multiset::group_multiset_properties, vstd::multiset::group_multiset_axioms};
    if k == 0 {
        assert(order.take(0) =~= Seq::<i32>::empty());
        vstd::seq_lib::to_multiset_len(Seq::<i32>::empty());
        assert(order.take(0).to_multiset() =~= Multiset::empty()) by {
            assert forall|v: i32| #[trigger] order.take(0).to_multiset().count(v) == 0 by {
                vstd::seq_lib::to_multiset_contains(order.take(0), v);
            }
        }
        assert(bins_multiset(bins).add(Multiset::empty()) =~= bins_multiset(bins));
    } else {
        lemma_first_fit_into_valid(bins, order, cap, k - 1);
        let prev = first_fit_into(bins, order, cap, k - 1);
        let item = order[k - 1];
        let t = first_fit_target(prev, item, cap, 0);
        let p = place(prev, item, t);
        lemma_bins_multiset_place(prev, item, t);
        lemma_take_push(order, k - 1);
        lemma_items_count_place(prev, item, t);
        lemma_first_fit_target_fits(prev, item, cap, 0);
        assert(bins_multiset(p) =~= bins_multiset(bins).add(order.take(k).to_multiset()));
        if t < prev.len() {
            lemma_seq_sum_push(prev[t], item);
        } else {
            lemma_seq_sum_push(Seq::<i32>::empty(), item);
            assert(Seq::<i32>::empty().push(item) =~= seq![item]);
        }
        if no_empty_bins(bins) {
            assert forall|b: int| 0 <= b < p.len() implies #[trigger] p[b].len() > 0 by {
                if b != t {
                    assert(p[b] == prev[b]);
                }
            }
        }
        if within_capacity(bins, cap) && all_sizes_between(bins, cap) && sizes_between(order, cap) {
            assert(0 <= item <= cap);
            assert forall|b: int| 0 <= b < p.len() implies #[trigger] seq_sum(p[b]) <= cap by {
                if b != t {
                    assert(p[b] == prev[b]);
                }
            }
            assert forall|b: int, j: int| 0 <= b < p.len() && 0 <= j < p[b].len() implies 0
                <= #[trigger] p[b][j] <= cap by {
                if b < prev.len() && j < prev[b].len() {
                    assert(p[b][j] == prev[b][j]);
                } else {
                    assert(p[b][j] == item);
                }
            }
        }
    }
}

/// Puts the items, one after the other, into the first bin that has room
/// for each, or into a new bin; `sums` are the bin sums, and stay so.
pub fn place_all_first_fit(
    bins: &mut Vec<Vec<i32>>,
    sums: &mut Vec<i32>,
    capacity: i32,
    items: &Vec<i32>,
)
    requires
        loads_match(old(sums)@, bins_view(old(bins)@)),
        first_fit_sums_fit(bins_view(old(bins)@), items@, capacity),
    ensures
        bins_view(final(bins)@) == first_fit_into(
            bins_view(old(bins)@),
            items@,
            capacity,
            items.len() as int,
        ),
        loads_match(final(sums)@, bins_view(final(bins)@)),
{
    let ghost start = bins_view(bins@);
    let len = items.len();
    let mut k: usize = 0;
    proof {
        assert(first_fit_into(start, items@, capacity, 0) == start);
    }
    while k < len
        invariant
            len == items@.len(),
            k <= len,
            first_fit_sums_fit(start, items@, capacity),
            bins_view(bins@) == first_fit_into(start, items@, capacity, k as int),
            loads_match(sums@, bins_view(bins@)),
        decreases len - k,
    {
        let item = items[k];
        proof {
            assert(scan_fits(first_fit_into(start, items@, capacity, k as int), items@[k as int], capacity));
        }
        place_first_fit(bins, sums, item, capacity);
        k = k + 1;
    }
}

/// Takes bin `b` out and puts its items back, in the order `order`, one
/// after the other by the first-fit rule into the remaining bins.
fn reinsert_in_order(
    bins: &mut Vec<Vec<i32>>,
    sums: &mut Vec<i32>,
    capacity: i32,
    b: usize,
    order: &Vec<i32>,
)
    requires
        loads_match(old(sums)@, bins_view(old(bins)@)),
        b < old(bins).len(),
        order@.to_multiset() == bins_view(old(bins)@)[b as int].to_multiset(),
        first_fit_sums_fit(swap_removed(bins_view(old(bins)@), b as int), order@, capacity),
    ensures
        bins_view(final(bins)@) == first_fit_into(
            swap_removed(bins_view(old(bins)@), b as int),
            order@,
            capacity,
            order@.len() as int,
        ),
        move_keeps(bins_view(old(bins)@), bins_view(final(bins)@), final(sums)@, capacity),
{
    broadcast use {vstd::multiset::group_multiset_properties, vstd::multiset::group_multiset_axioms};
    let ghost before = bins_view(bins@);
    let ghost taken = before[b as int];
    let ghost rest = swap_removed(before, b as int);
    let ghost old_sums = sums@;
    bins.swap_remove(b);
    sums.swap_remove(b);
    proof {
        assert(bins_view(bins@) =~= rest);
        lemma_loads_swap_removed(old_sums, before, b as int);
        lemma_items_count_swap_remove(before, b as int);
    }
    let len = order.len();
    place_all_first_fit(bins, sums, capacity, order);
    proof {
        let after = bins_view(bins@);
        lemma_first_fit_into_valid(rest, order@, capacity, len as int);
        assert(order@.take(len as int) =~= order@);
        lemma_bins_multiset_swap_remove(before, b as int);
        vstd::seq_lib::to_multiset_len(order@);
        vstd::seq_lib::to_multiset_len(taken);
        assert(bins_multiset(after) =~= bins_multiset(before));
        if no_empty_bins(before) {
            assert forall|bb: int| 0 <= bb < rest.len() implies #[trigger] rest[bb].len() > 0 by {
                if bb == b {
                    assert(rest[bb] == before[before.len() - 1]);
                } else {
                    assert(rest[bb] == before[bb]);
                }
            }
        }
        if within_capacity(before, capacity) && all_sizes_between(before, capacity) {
            assert forall|bb: int| 0 <= bb < rest.len() implies #[trigger] seq_sum(rest[bb])
                <= capacity by {
                if bb == b {
                    assert(rest[bb] == before[before.len() - 1]);
                } else {
                    assert(rest[bb] == before[bb]);
                }
            }
            assert forall|bb: int, j: int| 0 <= bb < rest.len() && 0 <= j < rest[bb].len() implies 0
                <= #[trigger] rest[bb][j] <= capacity by {
                if bb == b {
                    assert(rest[bb][j] == before[before.len() - 1][j]);
                } else {
                    assert(rest[bb][j] == before[bb][j]);
                }
            }
            assert forall|j: int| 0 <= j < order@.len() implies 0 <= #[trigger] order@[j]
                <= capacity by {
                let v = order@[j];
                assert(order@.contains(v));
                vstd::seq_lib::to_multiset_contains(order@, v);
                vstd::seq_lib::to_multiset_contains(taken, v);
                let i = choose|i: int| 0 <= i < taken.len() && taken[i] == v;
                assert(taken[i] == before[b as int][i]);
            }
        }
    }
}

/// One move of the annealing heuristic, with the bins and items it was
/// drawn on.
pub enum Move {
    /// The packing stays as it is.
    Keep,
    /// Exchange item `i1` of bin `b1` with item `i2` of bin `b2`.
    Exchange { b1: usize, i1: usize, b2: usize, i2: usize },
    /// Move item `idx` of bin `src` into bin `dst`.
    Relocate { src: usize, idx: usize, dst: usize },
    /// Take bin `bin` out and put its items back by first fit, in the
    /// order `order`.
    Reinsert { bin: usize, order: Vec<i32> },
}

/// The move names bins and items that `bins` has: two different bins for an
/// exchange or a move of an item, and, for a bin put back, an order of
/// exactly its items.
pub open spec fn move_valid(bins: Seq<Seq<i32>>, mv: Move) -> bool {
    match mv {
        Move::Keep => true,
        Move::Exchange { b1, i1, b2, i2 } => b1 < bins.len() && b2 < bins.len() && b1 != b2 && i1
            < bins[b1 as int].len() && i2 < bins[b2 as int].len(),
        Move::Relocate { src, idx, dst } => src < bins.len() && dst < bins.len() && src != dst && idx
            < bins[src as int].len(),
        Move::Reinsert { bin, order } => bin < bins.len() && order@.to_multiset()
            == bins[bin as int].to_multiset(),
    }
}

/// Every sum that the move forms on `bins` fits in an `i32`.
pub open spec fn move_fits(bins: Seq<Seq<i32>>, mv: Move, cap: i32) -> bool {
    match mv {
        Move::Keep => true,
        Move::Exchange { b1, i1, b2, i2 } => swap_sums_fit(bins, b1 as int, i1 as int, b2 as int, i2 as int),
        Move::Relocate { src, idx, dst } => relocate_sums_fit(bins, src as int, idx as int, dst as int, cap),
        Move::Reinsert { bin, order } => first_fit_sums_fit(swap_removed(bins, bin as int), order@, cap),
    }
}

/// The bins after the move: unchanged; the exchange or the move of an item
/// when the bins it fills stay within the capacity, else unchanged; or the
/// items of the bin taken out put back by first fit in the given order.
pub open spec fn move_outcome(bins: Seq<Seq<i32>>, mv: Move, cap: i32) -> Seq<Seq<i32>> {
    match mv {
        Move::Keep => bins,
        Move::Exchange { b1, i1, b2, i2 } => swap_outcome(bins, b1 as int, i1 as int, b2 as int, i2 as int, cap),
        Move::Relocate { src, idx, dst } => relocate_outcome(bins, src as int, idx as int, dst as int, cap),
        Move::Reinsert { bin, order } => first_fit_into(
            swap_removed(bins, bin as int),
            order@,
            cap,
            order@.len() as int,
        ),
    }
}

/// Makes the move `mv` on the packing; `sums` are the bin sums, and stay so.
pub fn apply_move(bins: &mut Vec<Vec<i32>>, sums: &mut Vec<i32>, capacity: i32, mv: &Move)
    requires
        loads_match(old(sums)@, bins_view(old(bins)@)),
        move_valid(bins_view(old(bins)@), *mv),
        move_fits(bins_view(old(bins)@), *mv, capacity),
    ensures
        bins_view(final(bins)@) == move_outcome(bins_view(old(bins)@), *mv, capacity),
        move_keeps(bins_view(old(bins)@), bins_view(final(bins)@), final(sums)@, capacity),
{
    match mv {
        Move::Keep => {},
        Move::Exchange { b1, i1, b2, i2 } => {
            swap_items(bins, sums, capacity, *b1, *i1, *b2, *i2);
        },
        Move::Relocate { src, idx, dst } => {
            relocate_item(bins, sums, capacity, *src, *idx, *dst);
        },
        Move::Reinsert { bin, order } => {
            reinsert_in_order(bins, sums, capacity, *bin, order);
        },
    }
}

/// Bin `b1` or bin `b2` holds no item.
pub open spec fn one_empty(bins: Seq<Seq<i32>>, b1: int, b2: int) -> bool {
    bins[b1].len() == 0 || bins[b2].len() == 0
}

/// The move drawn for `action` (0: an exchange, 1: a move of an item, 2: a
/// bin put back) is of that kind, or nothing when it does not apply: the
/// exchange and the move of an item need two bins, and the drawn bins (the
/// one given up, for a move of an item) must hold an item; putting a bin back
/// needs a bin.
pub open spec fn drawn_for(bins: Seq<Seq<i32>>, action: usize, mv: Move) -> bool {
    match mv {
        Move::Keep => if action == 0 {
            bins.len() < 2 || exists|b1: int, b2: int|
                0 <= b1 < bins.len() && 0 <= b2 < bins.len() && b1 != b2 && #[trigger] one_empty(
                    bins,
                    b1,
                    b2,
                )
        } else if action == 1 {
            bins.len() < 2 || exists|src: int| 0 <= src < bins.len() && #[trigger] one_empty(bins, src, src)
        } else {
            bins.len() == 0
        },
        Move::Exchange { .. } => action == 0,
        Move::Relocate { .. } => action == 1,
        Move::Reinsert { .. } => action == 2,
    }
}

/// Draws the bins, items and order of the move for `action` (0: an
/// exchange, 1: a move of an item, 2: a bin put back): two different random
/// bins and a random item of each (of the first, for a move of an item), or
/// a random bin with its items shuffled.
pub fn draw_move(bins: &Vec<Vec<i32>>, action: usize, rng: &mut ThreadRng) -> (mv: Move)
    requires
        action < 3,
    ensures
        move_valid(bins_view(bins@), mv),
        drawn_for(bins_view(bins@), action, mv),
{
    let ghost before = bins_view(bins@);
    let len = bins.len();
    if action == 2 {
        if len == 0 {
            return Move::Keep;
        }
        let b = random_index(rng, 0, len);
        let row = &bins[b];
        let mut order: Vec<i32> = Vec::new();
        let mut k: usize = 0;
        while k < row.len()
            invariant
                k <= row.len(),
                order@ == row@.take(k as int),
            decreases row.len() - k,
        {
            order.push(row[k]);
            assert(order@ =~= row@.take(k + 1));
            k = k + 1;
        }
        assert(order@ =~= row@);
        shuffle_i32(&mut order, rng);
        return Move::Reinsert { bin: b, order };
    }
    if len < 2 {
        return Move::Keep;
    }
    let first = random_index(rng, 0, len);
    let mut second = random_index(rng, 0, len - 1);
    if second >= first {
        second = second + 1;
    }
    if action == 0 {
        if bins[first].len() == 0 || bins[second].len() == 0 {
            proof {
                assert(one_empty(before, first as int, second as int));
            }
            return Move::Keep;
        }
        let i1 = random_index(rng, 0, bins[first].len());
        let i2 = random_index(rng, 0, bins[second].len());
        Move::Exchange { b1: first, i1, b2: second, i2 }
    } else {
        if bins[first].len() == 0 {
            proof {
                assert(one_empty(before, first as int, first as int));
            }
            return Move::Keep;
        }
        let idx = random_index(rng, 0, bins[first].len());
        Move::Relocate { src: first, idx, dst: second }
    }
}

/// `after` is what one drawn move makes of `before`: with at least 2 bins,
/// an exchange tried between two different bins or a move tried from one bin
/// to another; with at least one bin, the items of some bin, in some order,
/// put back by first fit into the other bins; with fewer than 2 bins, also
/// nothing (the exchange and the move need two bins).
pub open spec fn drawn_move(before: Seq<Seq<i32>>, after: Seq<Seq<i32>>, cap: i32) -> bool {
    ||| before.len() >= 2 && exists|b1: int, b2: int|
        0 <= b1 < before.len() && 0 <= b2 < before.len() && b1 != b2 && #[trigger] swap_drawn(
            before,
            after,
            b1,
            b2,
            cap,
        )
    ||| before.len() >= 2 && exists|src: int, dst: int|
        0 <= src < before.len() && 0 <= dst < before.len() && src != dst && #[trigger] relocate_drawn(
            before,
            after,
            src,
            dst,
            cap,
        )
    ||| before.len() > 0 && exists|b: int, order: Seq<i32>|
        0 <= b < before.len() && order.to_multiset() == before[b].to_multiset() && after
            == #[trigger] first_fit_into(swap_removed(before, b), order, cap, order.len() as int)
    ||| before.len() < 2 && after == before
}

proof fn lemma_drawn_move_fits(bins: Seq<Seq<i32>>, mv: Move, cap: i32)
    requires
        moves_fit(bins, cap),
        move_valid(bins, mv),
    ensures
        move_fits(bins, mv, cap),
{
    match mv {
        Move::Keep => {},
        Move::Exchange { b1, i1, b2, i2 } => {
            assert(swap_sums_fit(bins, b1 as int, i1 as int, b2 as int, i2 as int));
        },
        Move::Relocate { src, idx, dst } => {
            assert(relocate_sums_fit(bins, src as int, idx as int, dst as int, cap));
        },
        Move::Reinsert { bin, order } => {
            assert(first_fit_sums_fit(swap_removed(bins, bin as int), order@, cap));
        },
    }
}

/// The outcome of a move drawn for an action is one move of the heuristic
/// away, and one that the action can draw.
proof fn lemma_drawn_move_outcome(before: Seq<Seq<i32>>, action: usize, mv: Move, cap: i32)
    requires
        action < 3,
        move_valid(before, mv),
        drawn_for(before, action, mv),
    ensures
        is_neighbor(before, move_outcome(before, mv, cap), cap),
        drawn_move(before, move_outcome(before, mv, cap), cap),
{
    let after = move_outcome(before, mv, cap);
    match mv {
        Move::Keep => {
            if before.len() >= 2 {
                if action == 0 {
                    let (b1, b2) = choose|b1: int, b2: int|
                        0 <= b1 < before.len() && 0 <= b2 < before.len() && b1 != b2 && #[trigger] one_empty(
                            before,
                            b1,
                            b2,
                        );
                    assert(swap_drawn(before, after, b1, b2, cap));
                } else if action == 1 {
                    let src = choose|src: int| 0 <= src < before.len() && #[trigger] one_empty(before, src, src);
                    let dst: int = if src == 0 {
                        1
                    } else {
                        0
                    };
                    assert(relocate_drawn(before, after, src, dst, cap));
                }
            }
        },
        Move::Exchange { b1, i1, b2, i2 } => {
            let (b1, i1, b2, i2) = (b1 as int, i1 as int, b2 as int, i2 as int);
            assert(swap_drawn(before, after, b1, b2, cap));
            if after != before {
                assert(after == swap_move(before, b1, i1, b2, i2));
            }
        },
        Move::Relocate { src, idx, dst } => {
            let (src, idx, dst) = (src as int, idx as int, dst as int);
            assert(relocate_drawn(before, after, src, dst, cap));
            if after != before {
                assert(after == relocate_move(before, src, idx, dst));
            }
        },
        Move::Reinsert { bin, order } => {
            assert(after == first_fit_into(swap_removed(before, bin as int), order@, cap, order@.len() as int));
        },
    }
}

/// One random move of the annealing heuristic from a packing with the given
/// bin sums: with equal chances, an exchange of two items between two bins,
/// a move of one item into another bin, or the items of one bin, shuffled,
/// put back by first fit. A move that does not apply leaves the packing as
/// it is. Returns the new bins with their sums.
pub fn generate_neighbor(
    bins: &Vec<Vec<i32>>,
    bin_sums: &Vec<i32>,
    capacity: i32,
    rng: &mut ThreadRng,
) -> (r: (Vec<Vec<i32>>, Vec<i32>))
    requires
        loads_match(bin_sums@, bins_view(bins@)),
        moves_fit(bins_view(bins@), capacity),
    ensures
        move_keeps(bins_view(bins@), bins_view(r.0@), r.1@, capacity),
        is_neighbor(bins_view(bins@), bins_view(r.0@), capacity),
        drawn_move(bins_view(bins@), bins_view(r.0@), capacity),
{
    let mut new_bins = copy_bins(bins);
    let mut new_sums = bin_sums.clone();
    let ghost before = bins_view(bins@);
    proof {
        assert(new_sums@ =~= bin_sums@);
    }
    let action = random_index(rng, 0, 3);
    let mv = draw_move(&new_bins, action, rng);
    proof {
        lemma_drawn_move_fits(before, mv, capacity);
    }
    apply_move(&mut new_bins, &mut new_sums, capacity, &mv);
    proof {
        lemma_drawn_move_outcome(before, action, mv, capacity);
    }
    (new_bins, new_sums)
}

} // verus!
