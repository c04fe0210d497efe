//! Dynamic programming examples: Fibonacci numbers and the 0/1 knapsack.
use vstd::prelude::*;

verus! {

/// The Fibonacci numbers, with `fib(0) == 0` and `fib(1) == 1`.
pub open spec fn fib(n: nat) -> nat
    decreases n,
{
    if n <= 1 {
        n
    } else {
        fib((n - 1) as nat) + fib((n - 2) as nat)
    }
}

/// Fibonacci numbers never decrease.
pub proof fn lemma_fib_monotonic(a: nat, b: nat)
    requires
        a <= b,
    ensures
        fib(a) <= fib(b),
    decreases b - a,
{
    if a < b {
        lemma_fib_monotonic(a, (b - 1) as nat);
        if b >= 2 {
            assert(fib(b) == fib((b - 1) as nat) + fib((b - 2) as nat));
        }
    }
}

/// Computes the `n`-th Fibonacci number bottom-up.
pub fn fibonacci(n: usize) -> (r: u64)
    requires
        fib(n as nat) <= u64::MAX,
    ensures
        r == fib(n as nat),
{
    if n <= 1 {
        return n as u64;
    }
    let mut dp: Vec<u64> = Vec::new();
    dp.push(0);
    dp.push(1);
    let mut i: usize = 1;
    while i < n
        invariant
            1 <= i <= n,
            fib(n as nat) <= u64::MAX,
            dp.len() == i + 1,
            forall|k: int| 0 <= k < dp.len() ==> dp[k] == fib(k as nat),
        decreases n - i,
    {
        proof {
            lemma_fib_monotonic((i + 1) as nat, n as nat);
            assert(fib((i + 1) as nat) == fib(i as nat) + fib((i - 1) as nat));
        }
        let next = dp[i] + dp[i - 1];
        dp.push(next);
        i = i + 1;
    }
    dp[n]
}


/// The value of the knapsack recurrence: the best value reachable with the
/// first `i` of the `(weight, value)` items within capacity `w`.
pub open spec fn knap(items: Seq<(usize, usize)>, i: nat, w: nat) -> nat
    decreases i,
{
    if i == 0 || i > items.len() {
        0
    } else {
        let wt = items[i - 1].0 as nat;
        let v = items[i - 1].1 as nat;
        let skip = knap(items, (i - 1) as nat, w);
        if wt > w {
            skip
        } else {
            let take = v + knap(items, (i - 1) as nat, (w - wt) as nat);
            if take > skip { take } else { skip }
        }
    }
}

/// Total weight of the items picked by `sel`; `sel[k]` says whether item `k` is taken.
pub open spec fn sel_weight(items: Seq<(usize, usize)>, sel: Seq<bool>) -> nat
    decreases sel.len(),
{
    if sel.len() == 0 {
        0
    } else {
        sel_weight(items, sel.drop_last()) + if sel.last() {
            items[sel.len() - 1].0 as nat
        } else {
            0nat
        }
    }
}

/// Total value of the items picked by `sel`.
pub open spec fn sel_value(items: Seq<(usize, usize)>, sel: Seq<bool>) -> nat
    decreases sel.len(),
{
    if sel.len() == 0 {
        0
    } else {
        sel_value(items, sel.drop_last()) + if sel.last() {
            items[sel.len() - 1].1 as nat
        } else {
            0nat
        }
    }
}

/// Sum of the values of the first `i` items.
pub open spec fn total_value(items: Seq<(usize, usize)>, i: nat) -> nat
    decreases i,
{
    if i == 0 || i > items.len() {
        0
    } else {
        total_value(items, (i - 1) as nat) + items[i - 1].1 as nat
    }
}

proof fn lemma_knap_le_total(items: Seq<(usize, usize)>, i: nat, w: nat)
    requires
        i <= items.len(),
    ensures
        knap(items, i, w) <= total_value(items, i),
    decreases i,
{
    if i > 0 {
        lemma_knap_le_total(items, (i - 1) as nat, w);
        let wt = items[i - 1].0 as nat;
        if wt <= w {
            lemma_knap_le_total(items, (i - 1) as nat, (w - wt) as nat);
        }
    }
}

proof fn lemma_total_value_monotonic(items: Seq<(usize, usize)>, i: nat, j: nat)
    requires
        i <= j <= items.len(),
    ensures
        total_value(items, i) <= total_value(items, j),
    decreases j - i,
{
    if i < j {
        lemma_total_value_monotonic(items, i, (j - 1) as nat);
    }
}

/// Optimality of the knapsack recurrence: no selection of the first `i` items
/// that fits in capacity `w` is worth more than `knap(items, i, w)`, and some
/// selection that fits is worth exactly that much.
pub proof fn lemma_knapsack_optimal(items: Seq<(usize, usize)>, i: nat, w: nat)
    requires
        i <= items.len(),
    ensures
        forall|sel: Seq<bool>|
            sel.len() == i && sel_weight(items, sel) <= w ==> #[trigger] sel_value(items, sel)
                <= knap(items, i, w),
        exists|sel: Seq<bool>|
            sel.len() == i && sel_weight(items, sel) <= w && #[trigger] sel_value(items, sel)
                == knap(items, i, w),
    decreases i,
{
    if i == 0 {
        assert forall|sel: Seq<bool>|
            sel.len() == i && sel_weight(items, sel) <= w implies #[trigger] sel_value(items, sel)
            <= knap(items, i, w) by {}
        let e = Seq::<bool>::empty();
        assert(sel_value(items, e) == 0);
    } else {
        let wt = items[i - 1].0 as nat;
        let v = items[i - 1].1 as nat;
        lemma_knapsack_optimal(items, (i - 1) as nat, w);
        if wt <= w {
            lemma_knapsack_optimal(items, (i - 1) as nat, (w - wt) as nat);
        }
        assert forall|sel: Seq<bool>|
            sel.len() == i && sel_weight(items, sel) <= w implies #[trigger] sel_value(items, sel)
            <= knap(items, i, w) by {
            let rest = sel.drop_last();
            assert(sel_value(items, rest) == sel_value(items, rest));
            if sel.last() {
                assert(sel_weight(items, rest) + wt <= w);
                assert(sel_value(items, rest) <= knap(items, (i - 1) as nat, (w - wt) as nat));
            } else {
                assert(sel_value(items, rest) <= knap(items, (i - 1) as nat, w));
            }
        }
        let skip = knap(items, (i - 1) as nat, w);
        let s1 = choose|sel: Seq<bool>|
            sel.len() == i - 1 && sel_weight(items, sel) <= w && #[trigger] sel_value(items, sel)
                == skip;
        if wt <= w && v + knap(items, (i - 1) as nat, (w - wt) as nat) > skip {
            let s2 = choose|sel: Seq<bool>|
                sel.len() == i - 1 && sel_weight(items, sel) <= (w - wt) as nat && #[trigger] sel_value(
                    items,
                    sel,
                ) == knap(items, (i - 1) as nat, (w - wt) as nat);
            let t = s2.push(true);
            assert(t.drop_last() =~= s2);
            assert(sel_value(items, t) == knap(items, i, w));
        } else {
            let t = s1.push(false);
            assert(t.drop_last() =~= s1);
            assert(sel_value(items, t) == knap(items, i, w));
        }
    }
}

/// Every sum that the dynamic programming forms fits in a `usize`: for each
/// item and each room left once its weight is taken from a capacity up to
/// `capacity`, its value plus the best value of the items before it in that
/// room.
pub open spec fn knap_sums_fit(items: Seq<(usize, usize)>, capacity: usize) -> bool {
    forall|i: nat, d: nat|
        i < items.len() && d + items[i as int].0 <= capacity ==> items[i as int].1 + #[trigger] knap(
            items,
            i,
            d,
        ) <= usize::MAX
}

/// Solves the 0/1 knapsack by dynamic programming over `(weight, value)`
/// items: the best total value of a selection whose total weight is at most
/// `capacity`.
pub fn knapsack_max_value(items: &Vec<(usize, usize)>, capacity: usize) -> (r: usize)
    requires
        capacity < usize::MAX,
        knap_sums_fit(items@, capacity),
    ensures
        r == knap(items@, items@.len(), capacity as nat),
{
    let nb_items = items.len();
    let mut row0: Vec<usize> = Vec::new();
    let mut w: usize = 0;
    while w <= capacity
        invariant
            capacity < usize::MAX,
            w <= capacity + 1,
            row0.len() == w,
            forall|k: int| 0 <= k < w ==> row0[k] == 0,
        decreases capacity + 1 - w,
    {
        row0.push(0);
        w = w + 1;
    }
    let mut dp: Vec<Vec<usize>> = Vec::new();
    dp.push(row0);
    let mut i: usize = 0;
    while i < nb_items
        invariant
            nb_items == items.len(),
            capacity < usize::MAX,
            knap_sums_fit(items@, capacity),
            0 <= i <= nb_items,
            dp.len() == i + 1,
            forall|r: int| 0 <= r <= i ==> #[trigger] dp@[r].len() == capacity + 1,
            forall|r: int, c: int|
                0 <= r <= i && 0 <= c <= capacity ==> #[trigger] dp@[r]@[c] == knap(
                    items@,
                    r as nat,
                    c as nat,
                ),
        decreases nb_items - i,
    {
        let (wt, v) = items[i];
        let mut row: Vec<usize> = Vec::new();
        let mut w: usize = 0;
        let prev_row = &dp[i];
        assert(prev_row.len() == capacity + 1);
        while w <= capacity
            invariant
                nb_items == items.len(),
                capacity < usize::MAX,
                knap_sums_fit(items@, capacity),
                0 <= i < nb_items,
                (wt, v) == items@[i as int],
                prev_row.len() == capacity + 1,
                forall|c: int|
                    0 <= c <= capacity ==> #[trigger] prev_row@[c] == knap(
                        items@,
                        i as nat,
                        c as nat,
                    ),
                w <= capacity + 1,
                row.len() == w,
                forall|c: int|
                    0 <= c < w ==> #[trigger] row@[c] == knap(items@, (i + 1) as nat, c as nat),
            decreases capacity + 1 - w,
        {
            let prev = prev_row[w];
            if wt > w {
                row.push(prev);
            } else {
                let other = prev_row[w - wt];
                proof {
                    assert(v + knap(items@, i as nat, (w - wt) as nat) <= usize::MAX);
                }
                let take = v + other;
                if take > prev {
                    row.push(take);
                } else {
                    row.push(prev);
                }
            }
            w = w + 1;
        }
        dp.push(row);
        i = i + 1;
    }
    let last = &dp[nb_items];
    assert(last.len() == capacity + 1);
    last[capacity]
}

/// The knapsack instance of the notes: items `(weight, value)` =
/// (2, 3), (3, 4), (4, 5), (5, 8) and capacity 9.
pub open spec fn sample_knapsack_items() -> Seq<(usize, usize)> {
    seq![(2usize, 3usize), (3usize, 4usize), (4usize, 5usize), (5usize, 8usize)]
}

/// Solves the sample knapsack instance of the notes (capacity 9) and returns
/// the maximum possible value.
pub fn knapsack_daynamic_programming() -> (r: usize)
    ensures
        r == knap(sample_knapsack_items(), 4, 9),
{
    let mut items: Vec<(usize, usize)> = Vec::new();
    items.push((2, 3));
    items.push((3, 4));
    items.push((4, 5));
    items.push((5, 8));
    let capacity: usize = 9;
    proof {
        assert(items@ =~= sample_knapsack_items());
        reveal_with_fuel(total_value, 5);
        assert forall|i: nat, d: nat|
            i < items@.len() && d + items@[i as int].0 <= capacity implies items@[i as int].1
            + #[trigger] knap(items@, i, d) <= usize::MAX by {
            lemma_knap_le_total(items@, i, d);
            lemma_total_value_monotonic(items@, i, 4);
        }
    }
    knapsack_max_value(&items, capacity)
}

} // verus!
