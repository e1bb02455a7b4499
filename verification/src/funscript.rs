//! Funscript actions: defaults of the script header, stable ordering by time,
//! and condensing of consecutive identical positions.

use vstd::prelude::*;
use vstd::arithmetic::div_mod::{lemma_div_is_ordered, lemma_div_multiples_vanish};
use vstd::set_lib::{lemma_int_range, lemma_subset_equality, set_int_range};

verus! {

/// A motion action: a timestamp in milliseconds and the position it reaches,
/// in whole percent (0 is the bottom of the stroke, 100 the top).
#[derive(Clone, Copy, Debug, PartialEq, Eq, Structural)]
pub struct Action {
    pub at: u64,
    pub pos: u64,
}

/// The funscript version written when a script does not name one.
pub fn default_version() -> (version: String)
    ensures
        version@ == "1.0"@,
{
    "1.0".to_owned()
}

/// The position range written when a script does not name one.
pub fn default_range() -> (range: u32)
    ensures
        range == 100,
{
    100
}

/// Action `i` comes before action `j` when ordering by time and, for equal
/// times, by original position.
pub open spec fn precedes(s: Seq<Action>, i: int, j: int) -> bool {
    s[i].at < s[j].at || (s[i].at == s[j].at && i < j)
}

/// `order` lists every index of `s` once, sorted by time, keeping equal
/// times in their original order (a stable sort by `at`).
pub open spec fn is_stable_time_order(s: Seq<Action>, order: Seq<usize>) -> bool {
    &&& order.len() == s.len()
    &&& forall|k: int| 0 <= k < order.len() ==> #[trigger] order[k] < s.len()
    &&& forall|k: int, l: int|
        0 <= k < l < order.len() ==> precedes(s, #[trigger] order[k] as int, #[trigger] order[l] as int)
}

/// The actions of `s` taken in the order `order`.
pub open spec fn reorder(s: Seq<Action>, order: Seq<usize>) -> Seq<Action> {
    order.map_values(|i: usize| s[i as int])
}

/// Timestamps never decrease along `s`.
pub open spec fn is_time_sorted(s: Seq<Action>) -> bool {
    forall|i: int, j: int| 0 <= i <= j < s.len() ==> (#[trigger] s[i]).at <= (#[trigger] s[j]).at
}

/// Law: a stable time order sorts the actions by time.
pub proof fn lemma_stable_order_sorts(s: Seq<Action>, order: Seq<usize>)
    requires
        is_stable_time_order(s, order),
    ensures
        is_time_sorted(reorder(s, order)),
{
    let r = reorder(s, order);
    assert forall|i: int, j: int| 0 <= i <= j < r.len() implies (#[trigger] r[i]).at <= (
    #[trigger] r[j]).at by {
        if i < j {
            assert(precedes(s, order[i] as int, order[j] as int));
        }
    }
}

/// Law: a stable time order lists every action exactly once.
pub proof fn lemma_stable_order_is_permutation(s: Seq<Action>, order: Seq<usize>)
    requires
        is_stable_time_order(s, order),
    ensures
        order.no_duplicates(),
        forall|i: int| 0 <= i < s.len() ==> #[trigger] order.contains(i as usize),
{
    let n = s.len() as int;
    assert forall|k: int, l: int| 0 <= k < order.len() && 0 <= l < order.len() && k != l implies order[k]
        != order[l] by {
        if k < l {
            assert(precedes(s, order[k] as int, order[l] as int));
        } else {
            assert(precedes(s, order[l] as int, order[k] as int));
        }
    }
    lemma_indices_cover(order, n as nat);
}

/// `p` lists each index below `n` once: a rearrangement of `n` items.
pub open spec fn is_index_permutation(p: Seq<usize>, n: nat) -> bool {
    &&& p.len() == n
    &&& forall|k: int| 0 <= k < p.len() ==> #[trigger] p[k] < n
    &&& p.no_duplicates()
}

/// A rearrangement of `n` items lists every index below `n`.
pub proof fn lemma_indices_cover(p: Seq<usize>, n: nat)
    requires
        is_index_permutation(p, n),
    ensures
        forall|i: int| 0 <= i < n ==> #[trigger] p.contains(i as usize),
{
    let oi = p.map_values(|x: usize| x as int);
    assert(oi.no_duplicates());
    oi.unique_seq_to_set();
    vstd::seq_lib::seq_to_set_is_finite(oi);
    lemma_int_range(0, n as int);
    assert(oi.to_set().subset_of(set_int_range(0, n as int)));
    lemma_subset_equality(oi.to_set(), set_int_range(0, n as int));
    assert forall|i: int| 0 <= i < n implies #[trigger] p.contains(i as usize) by {
        assert(set_int_range(0, n as int).contains(i));
        assert(oi.to_set().contains(i));
        let k = choose|k: int| 0 <= k < oi.len() && oi[k] == i;
        assert(p[k] == i as usize);
    }
}

proof fn lemma_sorted_by_precedes_unique(s: Seq<Action>, o1: Seq<usize>, o2: Seq<usize>)
    requires
        o1.len() == o2.len(),
        forall|k: int, l: int|
            0 <= k < l < o1.len() ==> precedes(s, #[trigger] o1[k] as int, #[trigger] o1[l] as int),
        forall|k: int, l: int|
            0 <= k < l < o2.len() ==> precedes(s, #[trigger] o2[k] as int, #[trigger] o2[l] as int),
        forall|x: usize| o1.contains(x) <==> o2.contains(x),
    ensures
        o1 == o2,
    decreases o1.len(),
{
    if o1.len() > 0 {
        assert(o1.contains(o1[0]));
        assert(o2.contains(o2[0]));
        let j = choose|j: int| 0 <= j < o2.len() && o2[j] == o1[0];
        let i = choose|i: int| 0 <= i < o1.len() && o1[i] == o2[0];
        if o1[0] != o2[0] {
            assert(precedes(s, o1[0] as int, o1[i] as int));
            assert(precedes(s, o2[0] as int, o2[j] as int));
        }
        let d1 = o1.drop_first();
        let d2 = o2.drop_first();
        assert forall|x: usize| d1.contains(x) <==> d2.contains(x) by {
            if d1.contains(x) {
                let a = choose|a: int| 0 <= a < d1.len() && d1[a] == x;
                assert(o1.contains(x));
                let b = choose|b: int| 0 <= b < o2.len() && o2[b] == x;
                if b == 0 {
                    assert(precedes(s, o1[0] as int, o1[a + 1] as int));
                }
                assert(d2[b - 1] == x);
            }
            if d2.contains(x) {
                let a = choose|a: int| 0 <= a < d2.len() && d2[a] == x;
                assert(o2.contains(x));
                let b = choose|b: int| 0 <= b < o1.len() && o1[b] == x;
                if b == 0 {
                    assert(precedes(s, o2[0] as int, o2[a + 1] as int));
                }
                assert(d1[b - 1] == x);
            }
        }
        assert forall|k: int, l: int| 0 <= k < l < d1.len() implies precedes(
            s,
            #[trigger] d1[k] as int,
            #[trigger] d1[l] as int,
        ) by {
            assert(precedes(s, o1[k + 1] as int, o1[l + 1] as int));
        }
        assert forall|k: int, l: int| 0 <= k < l < d2.len() implies precedes(
            s,
            #[trigger] d2[k] as int,
            #[trigger] d2[l] as int,
        ) by {
            assert(precedes(s, o2[k + 1] as int, o2[l + 1] as int));
        }
        lemma_sorted_by_precedes_unique(s, d1, d2);
        assert(o1 =~= o2) by {
            assert forall|k: int| 0 <= k < o1.len() implies o1[k] == o2[k] by {
                if k > 0 {
                    assert(d1[k - 1] == d2[k - 1]);
                }
            }
        }
    }
}

/// Law: the stable time order of a sequence of actions is unique.
pub proof fn lemma_stable_order_unique(s: Seq<Action>, o1: Seq<usize>, o2: Seq<usize>)
    requires
        is_stable_time_order(s, o1),
        is_stable_time_order(s, o2),
    ensures
        o1 == o2,
{
    lemma_stable_order_is_permutation(s, o1);
    lemma_stable_order_is_permutation(s, o2);
    assert forall|x: usize| o1.contains(x) <==> o2.contains(x) by {
        if o1.contains(x) {
            let k = choose|k: int| 0 <= k < o1.len() && o1[k] == x;
            assert(o2.contains(x as int as usize));
        }
        if o2.contains(x) {
            let k = choose|k: int| 0 <= k < o2.len() && o2[k] == x;
            assert(o1.contains(x as int as usize));
        }
    }
    lemma_sorted_by_precedes_unique(s, o1, o2);
}

/// No two actions of `s` share a timestamp.
pub open spec fn distinct_times(s: Seq<Action>) -> bool {
    forall|i: int, j: int| 0 <= i < s.len() && 0 <= j < s.len() && i != j ==> s[i].at != s[j].at
}

proof fn lemma_strictly_sorted_unique(r1: Seq<Action>, r2: Seq<Action>)
    requires
        r1.len() == r2.len(),
        forall|k: int, l: int| 0 <= k < l < r1.len() ==> (#[trigger] r1[k]).at < (#[trigger] r1[l]).at,
        forall|k: int, l: int| 0 <= k < l < r2.len() ==> (#[trigger] r2[k]).at < (#[trigger] r2[l]).at,
        forall|x: Action| r1.contains(x) <==> r2.contains(x),
    ensures
        r1 == r2,
    decreases r1.len(),
{
    if r1.len() > 0 {
        assert(r1.contains(r1[0]));
        assert(r2.contains(r2[0]));
        let j = choose|j: int| 0 <= j < r2.len() && r2[j] == r1[0];
        let i = choose|i: int| 0 <= i < r1.len() && r1[i] == r2[0];
        if r1[0] != r2[0] {
            assert(r1[0].at < r1[i].at);
            assert(r2[0].at < r2[j].at);
        }
        let d1 = r1.drop_first();
        let d2 = r2.drop_first();
        assert forall|x: Action| d1.contains(x) <==> d2.contains(x) by {
            if d1.contains(x) {
                let a = choose|a: int| 0 <= a < d1.len() && d1[a] == x;
                assert(r1.contains(x));
                let b = choose|b: int| 0 <= b < r2.len() && r2[b] == x;
                if b == 0 {
                    assert(r1[0].at < r1[a + 1].at);
                }
                assert(d2[b - 1] == x);
            }
            if d2.contains(x) {
                let a = choose|a: int| 0 <= a < d2.len() && d2[a] == x;
                assert(r2.contains(x));
                let b = choose|b: int| 0 <= b < r1.len() && r1[b] == x;
                if b == 0 {
                    assert(r2[0].at < r2[a + 1].at);
                }
                assert(d1[b - 1] == x);
            }
        }
        assert forall|k: int, l: int| 0 <= k < l < d1.len() implies (#[trigger] d1[k]).at < (
        #[trigger] d1[l]).at by {
            assert(r1[k + 1].at < r1[l + 1].at);
        }
        assert forall|k: int, l: int| 0 <= k < l < d2.len() implies (#[trigger] d2[k]).at < (
        #[trigger] d2[l]).at by {
            assert(r2[k + 1].at < r2[l + 1].at);
        }
        lemma_strictly_sorted_unique(d1, d2);
        assert(r1 =~= r2) by {
            assert forall|k: int| 0 <= k < r1.len() implies r1[k] == r2[k] by {
                if k > 0 {
                    assert(d1[k - 1] == d2[k - 1]);
                }
            }
        }
    }
}

/// The actions in stable time order are exactly the actions of `s`,
/// strictly increasing in time when no two times are equal.
proof fn lemma_time_ordered_members(s: Seq<Action>, order: Seq<usize>)
    requires
        is_stable_time_order(s, order),
        distinct_times(s),
        s.len() <= usize::MAX,
    ensures
        forall|x: Action| reorder(s, order).contains(x) <==> s.contains(x),
        forall|k: int, l: int|
            0 <= k < l < reorder(s, order).len() ==> (#[trigger] reorder(s, order)[k]).at < (
            #[trigger] reorder(s, order)[l]).at,
{
    let r = reorder(s, order);
    lemma_stable_order_is_permutation(s, order);
    assert forall|x: Action| r.contains(x) <==> s.contains(x) by {
        if r.contains(x) {
            let k = choose|k: int| 0 <= k < r.len() && r[k] == x;
            assert(s[order[k] as int] == x);
        }
        if s.contains(x) {
            let i = choose|i: int| 0 <= i < s.len() && s[i] == x;
            assert(order.contains(i as usize));
            let k = choose|k: int| 0 <= k < order.len() && order[k] == i as usize;
            assert(order[k] as int == i);
            assert(r[k] == x);
        }
    }
    assert forall|k: int, l: int| 0 <= k < l < r.len() implies (#[trigger] r[k]).at < (
    #[trigger] r[l]).at by {
        assert(precedes(s, order[k] as int, order[l] as int));
        assert(order[k] != order[l]);
    }
}

/// Law: when no two actions share a timestamp, the order in which they are
/// given does not matter: any rearrangement of them comes out of the stable
/// time order as the same sequence, so it is condensed, and its intensity
/// planned, the same way.
pub proof fn lemma_time_order_ignores_input_order(s: Seq<Action>, p: Seq<usize>, o1: Seq<usize>, o2: Seq<usize>)
    requires
        s.len() <= usize::MAX,
        distinct_times(s),
        is_index_permutation(p, s.len()),
        is_stable_time_order(s, o1),
        is_stable_time_order(reorder(s, p), o2),
    ensures
        reorder(reorder(s, p), o2) == reorder(s, o1),
{
    let s2 = reorder(s, p);
    lemma_indices_cover(p, s.len());
    assert(distinct_times(s2)) by {
        assert forall|i: int, j: int| 0 <= i < s2.len() && 0 <= j < s2.len() && i != j implies s2[i].at
            != s2[j].at by {
            assert(p[i] != p[j]);
        }
    }
    assert forall|x: Action| s2.contains(x) <==> s.contains(x) by {
        if s2.contains(x) {
            let k = choose|k: int| 0 <= k < s2.len() && s2[k] == x;
            assert(s[p[k] as int] == x);
        }
        if s.contains(x) {
            let i = choose|i: int| 0 <= i < s.len() && s[i] == x;
            assert(p.contains(i as usize));
            let k = choose|k: int| 0 <= k < p.len() && p[k] == i as usize;
            assert(p[k] as int == i);
            assert(s2[k] == x);
        }
    }
    lemma_time_ordered_members(s, o1);
    lemma_time_ordered_members(s2, o2);
    assert forall|x: Action| reorder(s2, o2).contains(x) <==> reorder(s, o1).contains(x) by {
        assert(reorder(s2, o2).contains(x) <==> s2.contains(x));
        assert(reorder(s, o1).contains(x) <==> s.contains(x));
    }
    lemma_strictly_sorted_unique(reorder(s2, o2), reorder(s, o1));
}

/// The stable order of `actions` by timestamp, as a list of indices.
pub fn time_order(actions: &Vec<Action>) -> (order: Vec<usize>)
    ensures
        is_stable_time_order(actions@, order@),
{
    let n = actions.len();
    let mut order: Vec<usize> = Vec::new();
    let mut i: usize = 0;
    while i < n
        invariant
            n == actions.len(),
            i <= n,
            order.len() == i,
            forall|k: int| 0 <= k < order.len() ==> #[trigger] order@[k] < i,
            forall|k: int, l: int|
                0 <= k < l < order.len() ==> precedes(
                    actions@,
                    #[trigger] order@[k] as int,
                    #[trigger] order@[l] as int,
                ),
        decreases n - i,
    {
        let t = actions[i].at;
        let mut p: usize = 0;
        while p < order.len() && actions[order[p]].at <= t
            invariant
                n == actions.len(),
                i < n,
                order.len() == i,
                p <= order.len(),
                forall|k: int| 0 <= k < order.len() ==> #[trigger] order@[k] < i,
                forall|q: int| 0 <= q < p ==> actions@[#[trigger] order@[q] as int].at <= t,
            decreases order.len() - p,
        {
            p += 1;
        }
        proof {
            assert forall|q: int| p <= q < order.len() implies actions@[#[trigger] order@[q] as int].at
                > t by {
                if q > p {
                    assert(precedes(actions@, order@[p as int] as int, order@[q] as int));
                }
            }
        }
        let ghost old_order = order@;
        order.insert(p, i);
        proof {
            assert forall|k: int, l: int| 0 <= k < l < order.len() implies precedes(
                actions@,
                #[trigger] order@[k] as int,
                #[trigger] order@[l] as int,
            ) by {
                if k < p && l < p {
                    assert(precedes(actions@, old_order[k] as int, old_order[l] as int));
                } else if k < p && l > p {
                    assert(precedes(actions@, old_order[k] as int, old_order[l - 1] as int));
                } else if k > p && l > p {
                    assert(precedes(actions@, old_order[k - 1] as int, old_order[l - 1] as int));
                }
            }
        }
        i += 1;
    }
    order
}


/// Two neighbouring actions belong to the same group when they hold the same
/// position and the later one follows within `max_gap_ms`.
pub open spec fn joins(prev: Action, next: Action, max_gap_ms: u64) -> bool {
    next.pos == prev.pos && next.at - prev.at <= max_gap_ms
}

/// Index `i` opens a new group of `s`.
pub open spec fn starts_group(s: Seq<Action>, max_gap_ms: u64, i: int) -> bool {
    i == 0 || !joins(s[i - 1], s[i], max_gap_ms)
}

/// The indices below `n` that open a group, in increasing order.
pub open spec fn starts_below(s: Seq<Action>, max_gap_ms: u64, n: int) -> Seq<int> {
    Seq::new(n as nat, |i: int| i).filter(|i: int| starts_group(s, max_gap_ms, i))
}

/// Where group `k` ends (exclusive), given the group starts `st` of a
/// sequence of length `n`.
pub open spec fn group_end(st: Seq<int>, k: int, n: int) -> int {
    if k + 1 < st.len() {
        st[k + 1]
    } else {
        n
    }
}

/// The sum of the timestamps of `g`.
pub open spec fn sum_at(g: Seq<Action>) -> int
    decreases g.len(),
{
    if g.len() == 0 {
        0
    } else {
        sum_at(g.drop_last()) + g.last().at
    }
}

/// The action that stands for a group: the action itself for a single one,
/// else the first position at the (floored) mean timestamp.
pub open spec fn summary(g: Seq<Action>) -> Action {
    if g.len() == 1 {
        g[0]
    } else {
        Action { at: (sum_at(g) / (g.len() as int)) as u64, pos: g[0].pos }
    }
}

/// `s` split into maximal runs of joined neighbours, each replaced by its
/// summary.
pub open spec fn condensed(s: Seq<Action>, max_gap_ms: u64) -> Seq<Action> {
    let st = starts_below(s, max_gap_ms, s.len() as int);
    Seq::new(st.len(), |k: int| summary(s.subrange(st[k], group_end(st, k, s.len() as int))))
}

/// Neighbours with the same position never go back in time (the time gap
/// between them can be taken).
pub open spec fn same_positions_in_time_order(s: Seq<Action>) -> bool {
    forall|i: int| 0 < i < s.len() && (#[trigger] s[i]).pos == s[i - 1].pos ==> s[i - 1].at <= s[i].at
}

proof fn lemma_starts_below_step(s: Seq<Action>, max_gap_ms: u64, i: int)
    requires
        0 <= i,
    ensures
        starts_below(s, max_gap_ms, i + 1) == if starts_group(s, max_gap_ms, i) {
            starts_below(s, max_gap_ms, i).push(i)
        } else {
            starts_below(s, max_gap_ms, i)
        },
{
    let pred = |j: int| starts_group(s, max_gap_ms, j);
    assert(Seq::new((i + 1) as nat, |j: int| j) =~= Seq::new(i as nat, |j: int| j).push(i));
    Seq::new(i as nat, |j: int| j).lemma_filter_push(i, pred);
}

proof fn lemma_starts_below_zero(s: Seq<Action>, max_gap_ms: u64)
    ensures
        starts_below(s, max_gap_ms, 0) == Seq::<int>::empty(),
{
    reveal(Seq::filter);
    assert(Seq::new(0, |j: int| j) =~= Seq::<int>::empty());
}

proof fn lemma_sum_at_bounds(g: Seq<Action>, lo: int, hi: int)
    requires
        forall|j: int| 0 <= j < g.len() ==> lo <= (#[trigger] g[j]).at <= hi,
    ensures
        g.len() * lo <= sum_at(g) <= g.len() * hi,
    decreases g.len(),
{
    if g.len() > 0 {
        lemma_sum_at_bounds(g.drop_last(), lo, hi);
        assert(g.len() * lo == (g.len() - 1) * lo + lo) by (nonlinear_arith);
        assert(g.len() * hi == (g.len() - 1) * hi + hi) by (nonlinear_arith);
    }
}

proof fn lemma_mean_bounds(sum: int, len: int, lo: int, hi: int)
    requires
        len > 0,
        len * lo <= sum <= len * hi,
    ensures
        lo <= sum / len <= hi,
{
    lemma_div_is_ordered(len * lo, sum, len);
    lemma_div_is_ordered(sum, len * hi, len);
    lemma_div_multiples_vanish(lo, len);
    lemma_div_multiples_vanish(hi, len);
}

/// The summary of a nonempty group whose timestamps lie in `[lo, hi]` has a
/// timestamp in `[lo, hi]`.
proof fn lemma_summary_within(g: Seq<Action>, lo: int, hi: int)
    requires
        g.len() > 0,
        0 <= lo,
        hi <= u64::MAX,
        forall|j: int| 0 <= j < g.len() ==> lo <= (#[trigger] g[j]).at <= hi,
    ensures
        lo <= summary(g).at <= hi,
{
    if g.len() != 1 {
        lemma_sum_at_bounds(g, lo, hi);
        lemma_mean_bounds(sum_at(g), g.len() as int, lo, hi);
    }
}

fn summarize(actions: &Vec<Action>, start: usize, end: usize, sum: u128) -> (a: Action)
    requires
        start < end <= actions.len(),
        sum == sum_at(actions@.subrange(start as int, end as int)),
    ensures
        a == summary(actions@.subrange(start as int, end as int)),
{
    let ghost g = actions@.subrange(start as int, end as int);
    if end - start == 1 {
        actions[start]
    } else {
        let len = (end - start) as u128;
        proof {
            lemma_sum_at_bounds(g, 0, u64::MAX as int);
            lemma_mean_bounds(sum as int, len as int, 0, u64::MAX as int);
        }
        Action { at: (sum / len) as u64, pos: actions[start].pos }
    }
}

/// Replaces each maximal run of neighbouring actions that hold the same
/// position, each within `max_gap_ms` of the one before, by a single action
/// at the run's mean timestamp.
pub fn condense_identical_positions(actions: &mut Vec<Action>, max_gap_ms: u64)
    requires
        same_positions_in_time_order(old(actions)@),
    ensures
        final(actions)@ == condensed(old(actions)@, max_gap_ms),
{
    let ghost s = actions@;
    let n = actions.len();
    if n == 0 {
        proof {
            lemma_starts_below_zero(s, max_gap_ms);
            assert(condensed(s, max_gap_ms) =~= Seq::<Action>::empty());
        }
        return;
    }
    proof {
        lemma_starts_below_zero(s, max_gap_ms);
        lemma_starts_below_step(s, max_gap_ms, 0);
    }
    let mut out: Vec<Action> = Vec::new();
    let mut start: usize = 0;
    let mut sum: u128 = actions[0].at as u128;
    let mut i: usize = 1;
    proof {
        assert(s.subrange(0, 1).drop_last() =~= Seq::<Action>::empty());
        assert(sum_at(s.subrange(0, 1)) == sum_at(Seq::<Action>::empty()) + s[0].at);
    }
    while i < n
        invariant
            s == actions@,
            n == s.len(),
            same_positions_in_time_order(s),
            1 <= i <= n,
            start < i,
            starts_below(s, max_gap_ms, i as int).len() == out.len() + 1,
            starts_below(s, max_gap_ms, i as int).last() == start,
            forall|k: int|
                0 <= k < out.len() ==> #[trigger] out@[k] == summary(
                    s.subrange(
                        starts_below(s, max_gap_ms, i as int)[k],
                        starts_below(s, max_gap_ms, i as int)[k + 1],
                    ),
                ),
            sum == sum_at(s.subrange(start as int, i as int)),
            sum <= (i - start) * (u64::MAX as int),
        decreases n - i,
    {
        let ghost st = starts_below(s, max_gap_ms, i as int);
        proof {
            lemma_starts_below_step(s, max_gap_ms, i as int);
            assert(s.subrange(start as int, i + 1).drop_last() =~= s.subrange(start as int, i as int));
            assert(sum_at(s.subrange(start as int, i + 1)) == sum_at(s.subrange(start as int, i as int)) + s[i as int].at);
        }
        let prev = actions[i - 1];
        let a = actions[i];
        if a.pos == prev.pos && a.at - prev.at <= max_gap_ms {
            sum = sum + a.at as u128;
        } else {
            let summarized = summarize(actions, start, i, sum);
            out.push(summarized);
            start = i;
            sum = a.at as u128;
            proof {
                assert(s.subrange(i as int, i + 1).drop_last() =~= Seq::<Action>::empty());
                assert(sum_at(s.subrange(i as int, i + 1)) == sum_at(Seq::<Action>::empty()) + s[i as int].at);
            }
        }
        i += 1;
    }
    let last = summarize(actions, start, n, sum);
    out.push(last);
    proof {
        let st = starts_below(s, max_gap_ms, n as int);
        assert(out@ =~= condensed(s, max_gap_ms));
    }
    *actions = out;
}


proof fn lemma_starts_below_props(s: Seq<Action>, max_gap_ms: u64, n: int)
    requires
        0 <= n,
    ensures
        starts_below(s, max_gap_ms, n).len() <= n,
        forall|k: int|
            0 <= k < starts_below(s, max_gap_ms, n).len() ==> 0 <= #[trigger] starts_below(
                s,
                max_gap_ms,
                n,
            )[k] < n,
        forall|k: int, l: int|
            0 <= k < l < starts_below(s, max_gap_ms, n).len() ==> #[trigger] starts_below(
                s,
                max_gap_ms,
                n,
            )[k] < #[trigger] starts_below(s, max_gap_ms, n)[l],
        n > 0 ==> starts_below(s, max_gap_ms, n).len() > 0 && starts_below(s, max_gap_ms, n)[0]
            == 0,
    decreases n,
{
    if n == 0 {
        lemma_starts_below_zero(s, max_gap_ms);
    } else {
        lemma_starts_below_props(s, max_gap_ms, n - 1);
        lemma_starts_below_step(s, max_gap_ms, n - 1);
        if n == 1 {
            lemma_starts_below_zero(s, max_gap_ms);
        }
    }
}

proof fn lemma_starts_below_members(s: Seq<Action>, max_gap_ms: u64, n: int)
    requires
        0 <= n,
    ensures
        forall|k: int|
            0 <= k < starts_below(s, max_gap_ms, n).len() ==> starts_group(
                s,
                max_gap_ms,
                #[trigger] starts_below(s, max_gap_ms, n)[k],
            ),
        forall|i: int|
            0 <= i < n && #[trigger] starts_group(s, max_gap_ms, i) ==> starts_below(
                s,
                max_gap_ms,
                n,
            ).contains(i),
    decreases n,
{
    if n == 0 {
        lemma_starts_below_zero(s, max_gap_ms);
    } else {
        lemma_starts_below_members(s, max_gap_ms, n - 1);
        lemma_starts_below_step(s, max_gap_ms, n - 1);
        let prev = starts_below(s, max_gap_ms, n - 1);
        let cur = starts_below(s, max_gap_ms, n);
        assert forall|i: int| 0 <= i < n && #[trigger] starts_group(s, max_gap_ms, i) implies cur.contains(
            i,
        ) by {
            if i < n - 1 {
                let k = choose|k: int| 0 <= k < prev.len() && prev[k] == i;
                assert(cur[k] == i);
            } else {
                assert(cur[cur.len() - 1] == i);
            }
        }
    }
}

/// No index strictly inside group `k` opens a group.
proof fn lemma_inside_group(s: Seq<Action>, max_gap_ms: u64, k: int, i: int)
    requires
        0 <= k < starts_below(s, max_gap_ms, s.len() as int).len(),
        starts_below(s, max_gap_ms, s.len() as int)[k] < i < group_end(
            starts_below(s, max_gap_ms, s.len() as int),
            k,
            s.len() as int,
        ),
    ensures
        !starts_group(s, max_gap_ms, i),
        joins(s[i - 1], s[i], max_gap_ms),
{
    let n = s.len() as int;
    let st = starts_below(s, max_gap_ms, n);
    lemma_starts_below_props(s, max_gap_ms, n);
    lemma_starts_below_members(s, max_gap_ms, n);
    if starts_group(s, max_gap_ms, i) {
        let j = choose|j: int| 0 <= j < st.len() && st[j] == i;
        if j <= k {
            if j < k {
                assert(st[j] < st[k]);
            }
        } else if j > k + 1 {
            assert(st[k + 1] < st[j]);
        }
    }
}

/// Every action of group `k` holds the group's first position.
proof fn lemma_group_position(s: Seq<Action>, max_gap_ms: u64, k: int, i: int)
    requires
        0 <= k < starts_below(s, max_gap_ms, s.len() as int).len(),
        starts_below(s, max_gap_ms, s.len() as int)[k] <= i < group_end(
            starts_below(s, max_gap_ms, s.len() as int),
            k,
            s.len() as int,
        ),
    ensures
        s[i].pos == s[starts_below(s, max_gap_ms, s.len() as int)[k]].pos,
    decreases i,
{
    let st = starts_below(s, max_gap_ms, s.len() as int);
    lemma_starts_below_props(s, max_gap_ms, s.len() as int);
    if i > st[k] {
        lemma_inside_group(s, max_gap_ms, k, i);
        lemma_group_position(s, max_gap_ms, k, i - 1);
    }
}

/// Over actions in time order, each condensed action keeps the first
/// position of its group and a timestamp between the group's first and last.
proof fn lemma_condensed_within(s: Seq<Action>, max_gap_ms: u64, k: int)
    requires
        is_time_sorted(s),
        0 <= k < condensed(s, max_gap_ms).len(),
    ensures
        ({
            let st = starts_below(s, max_gap_ms, s.len() as int);
            let e = group_end(st, k, s.len() as int);
            &&& st[k] < e <= s.len()
            &&& s[st[k]].at <= condensed(s, max_gap_ms)[k].at <= s[e - 1].at
            &&& condensed(s, max_gap_ms)[k].pos == s[st[k]].pos
        }),
{
    let n = s.len() as int;
    let st = starts_below(s, max_gap_ms, n);
    lemma_starts_below_props(s, max_gap_ms, n);
    let e = group_end(st, k, n);
    let g = s.subrange(st[k], e);
    if k + 1 < st.len() {
        assert(st[k] < st[k + 1]);
    }
    assert forall|j: int| 0 <= j < g.len() implies s[st[k]].at <= (#[trigger] g[j]).at <= s[e
        - 1].at by {
        assert(g[j] == s[st[k] + j]);
    }
    lemma_summary_within(g, s[st[k]].at as int, s[e - 1].at as int);
}

/// Law: each condensed action stands for its run of joined neighbours: a
/// run of one action is kept as it is; a longer run becomes its first
/// position at the mean of its timestamps, rounded down (so `at * len` is at
/// most the sum of the times, and `(at + 1) * len` exceeds it). Every action
/// inside a run joins the one before it, and each run after the first opens
/// where the action before does not join.
pub proof fn lemma_condensed_runs(s: Seq<Action>, max_gap_ms: u64, k: int)
    requires
        0 <= k < condensed(s, max_gap_ms).len(),
    ensures
        ({
            let st = starts_below(s, max_gap_ms, s.len() as int);
            let e = group_end(st, k, s.len() as int);
            let g = s.subrange(st[k], e);
            let c = condensed(s, max_gap_ms)[k];
            &&& 0 <= st[k] < e <= s.len()
            &&& g.len() == 1 ==> c == s[st[k]]
            &&& g.len() > 1 ==> c.pos == s[st[k]].pos && c.at * g.len() <= sum_at(g) < (c.at + 1)
                * g.len()
            &&& forall|i: int| st[k] < i < e ==> joins(s[i - 1], #[trigger] s[i], max_gap_ms)
            &&& st[k] > 0 ==> !joins(s[st[k] - 1], s[st[k]], max_gap_ms)
            &&& (k == 0 <==> st[k] == 0)
        }),
{
    let n = s.len() as int;
    let st = starts_below(s, max_gap_ms, n);
    lemma_starts_below_props(s, max_gap_ms, n);
    lemma_starts_below_members(s, max_gap_ms, n);
    let e = group_end(st, k, n);
    if k + 1 < st.len() {
        assert(st[k] < st[k + 1]);
    }
    if k > 0 {
        assert(st[0] < st[k]);
    }
    let g = s.subrange(st[k], e);
    assert(starts_group(s, max_gap_ms, st[k]));
    assert forall|i: int| st[k] < i < e implies joins(s[i - 1], #[trigger] s[i], max_gap_ms) by {
        lemma_inside_group(s, max_gap_ms, k, i);
    }
    if g.len() > 1 {
        lemma_sum_at_bounds(g, 0, u64::MAX as int);
        let len = g.len() as int;
        let q = sum_at(g) / len;
        vstd::arithmetic::div_mod::lemma_fundamental_div_mod(sum_at(g), len);
        lemma_mean_bounds(sum_at(g), len, 0, u64::MAX as int);
        assert(len * q == q * len) by (nonlinear_arith);
        assert((q + 1) * len == q * len + len) by (nonlinear_arith);
    }
}

/// Law: over actions in time order, no two neighbours of the condensed
/// actions join: condensing leaves nothing more to condense.
pub proof fn lemma_condensed_has_no_joins(s: Seq<Action>, max_gap_ms: u64)
    requires
        is_time_sorted(s),
    ensures
        forall|k: int|
            0 < k < condensed(s, max_gap_ms).len() ==> !joins(
                condensed(s, max_gap_ms)[k - 1],
                #[trigger] condensed(s, max_gap_ms)[k],
                max_gap_ms,
            ),
{
    let n = s.len() as int;
    let st = starts_below(s, max_gap_ms, n);
    let c = condensed(s, max_gap_ms);
    lemma_starts_below_props(s, max_gap_ms, n);
    lemma_starts_below_members(s, max_gap_ms, n);
    assert forall|k: int| 0 < k < c.len() implies !joins(c[k - 1], #[trigger] c[k], max_gap_ms) by {
        let b = st[k];
        assert(st[k - 1] < b);
        assert(starts_group(s, max_gap_ms, b));
        lemma_condensed_within(s, max_gap_ms, k - 1);
        lemma_condensed_within(s, max_gap_ms, k);
        assert(group_end(st, k - 1, n) == b);
        lemma_group_position(s, max_gap_ms, k - 1, b - 1);
    }
}

/// Law: over actions in time order, condensing twice gives what condensing
/// once gives.
pub proof fn lemma_condense_idempotent(s: Seq<Action>, max_gap_ms: u64)
    requires
        is_time_sorted(s),
    ensures
        condensed(condensed(s, max_gap_ms), max_gap_ms) == condensed(s, max_gap_ms),
{
    lemma_condensed_has_no_joins(s, max_gap_ms);
    lemma_condense_without_joins(condensed(s, max_gap_ms), max_gap_ms);
}

/// Law: condensing never lengthens the actions, and leaves a nonempty
/// sequence nonempty.
pub proof fn lemma_condense_length(s: Seq<Action>, max_gap_ms: u64)
    ensures
        condensed(s, max_gap_ms).len() <= s.len(),
        s.len() > 0 ==> condensed(s, max_gap_ms).len() > 0,
{
    lemma_starts_below_props(s, max_gap_ms, s.len() as int);
}

/// Law: condensing actions that are in time order keeps them in time order.
pub proof fn lemma_condense_keeps_time_order(s: Seq<Action>, max_gap_ms: u64)
    requires
        is_time_sorted(s),
    ensures
        is_time_sorted(condensed(s, max_gap_ms)),
{
    let n = s.len() as int;
    let st = starts_below(s, max_gap_ms, n);
    let c = condensed(s, max_gap_ms);
    lemma_starts_below_props(s, max_gap_ms, n);
    assert forall|k: int| 0 <= k < c.len() implies s[st[k]].at <= (#[trigger] c[k]).at <= s[group_end(
        st,
        k,
        n,
    ) - 1].at by {
        lemma_condensed_within(s, max_gap_ms, k);
    }
    assert forall|k: int, l: int| 0 <= k <= l < c.len() implies (#[trigger] c[k]).at <= (
    #[trigger] c[l]).at by {
        if k < l {
            let e = group_end(st, k, n);
            assert(st[k + 1] <= st[l]) by {
                if k + 1 < l {
                    assert(st[k + 1] < st[l]);
                }
            }
            assert(s[e - 1].at <= s[st[l]].at);
            assert(c[k].at <= s[e - 1].at);
            assert(s[st[l]].at <= c[l].at);
        }
    }
}

/// Law: when no two neighbours join, condensing changes nothing.
pub proof fn lemma_condense_without_joins(s: Seq<Action>, max_gap_ms: u64)
    requires
        forall|i: int| 0 < i < s.len() ==> !joins(s[i - 1], #[trigger] s[i], max_gap_ms),
    ensures
        condensed(s, max_gap_ms) == s,
{
    let n = s.len() as int;
    assert forall|m: int| 0 <= m <= n implies #[trigger] starts_below(s, max_gap_ms, m) =~= Seq::new(
        m as nat,
        |i: int| i,
    ) by {
        lemma_starts_below_all(s, max_gap_ms, m);
    }
    let st = starts_below(s, max_gap_ms, n);
    assert(st =~= Seq::new(n as nat, |i: int| i));
    assert forall|k: int| 0 <= k < n implies #[trigger] condensed(s, max_gap_ms)[k] == s[k] by {
        let g = s.subrange(st[k], group_end(st, k, n));
        assert(g =~= seq![s[k]]);
    }
    assert(condensed(s, max_gap_ms) =~= s);
}

proof fn lemma_starts_below_all(s: Seq<Action>, max_gap_ms: u64, m: int)
    requires
        0 <= m <= s.len(),
        forall|i: int| 0 < i < s.len() ==> !joins(s[i - 1], #[trigger] s[i], max_gap_ms),
    ensures
        starts_below(s, max_gap_ms, m) =~= Seq::new(m as nat, |i: int| i),
    decreases m,
{
    if m == 0 {
        lemma_starts_below_zero(s, max_gap_ms);
    } else {
        lemma_starts_below_all(s, max_gap_ms, m - 1);
        lemma_starts_below_step(s, max_gap_ms, m - 1);
        assert(starts_group(s, max_gap_ms, m - 1));
    }
}

/// Actions in time order may be condensed.
pub proof fn lemma_time_sorted_may_condense(s: Seq<Action>)
    requires
        is_time_sorted(s),
    ensures
        same_positions_in_time_order(s),
{
    assert forall|i: int| 0 < i < s.len() && (#[trigger] s[i]).pos == s[i - 1].pos implies s[i
        - 1].at <= s[i].at by {
        assert(s[i - 1].at <= s[i].at);
    }
}

/// The actions taken in the order `order`.
pub fn reorder_actions(actions: &Vec<Action>, order: &Vec<usize>) -> (reordered: Vec<Action>)
    requires
        forall|k: int| 0 <= k < order.len() ==> #[trigger] order@[k] < actions.len(),
    ensures
        reordered@ == reorder(actions@, order@),
{
    let mut reordered: Vec<Action> = Vec::new();
    let mut k: usize = 0;
    while k < order.len()
        invariant
            k <= order.len(),
            forall|j: int| 0 <= j < order.len() ==> #[trigger] order@[j] < actions.len(),
            reordered@ =~= reorder(actions@, order@).take(k as int),
        decreases order.len() - k,
    {
        reordered.push(actions[order[k]]);
        k += 1;
    }
    assert(reorder(actions@, order@).take(order.len() as int) =~= reorder(actions@, order@));
    reordered
}

} // verus!
