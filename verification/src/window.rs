//! The position samples inside an analysis window and the position changes
//! between them.

use vstd::prelude::*;
use crate::funscript::Action;

verus! {

/// How the position at some instant follows from the actions around it.
#[derive(Clone, Copy, Debug, PartialEq, Eq, Structural)]
pub enum Interpolation {
    /// No action on either side: position 0.
    Zero,
    /// Exactly the position of the action at this index.
    At(usize),
    /// Between two actions: the position of `from`, plus the difference to
    /// the position of `to` scaled by `elapsed / span`.
    Between { from: usize, to: usize, elapsed: u64, span: u64 },
}

/// The interpolation at `time` between the optional previous action `a0` and
/// the optional next action `a1`: a step to the side that exists, the nearer
/// end outside the pair, and a linear blend inside it.
pub open spec fn interpolation(s: Seq<Action>, a0: Option<usize>, a1: Option<usize>, time: u64) -> Interpolation {
    match (a0, a1) {
        (None, None) => Interpolation::Zero,
        (None, Some(j)) => Interpolation::At(j),
        (Some(i), None) => Interpolation::At(i),
        (Some(i), Some(j)) => if time <= s[i as int].at {
            Interpolation::At(i)
        } else if time >= s[j as int].at {
            Interpolation::At(j)
        } else if s[i as int].at == s[j as int].at {
            Interpolation::At(i)
        } else {
            Interpolation::Between {
                from: i,
                to: j,
                elapsed: (time - s[i as int].at) as u64,
                span: (s[j as int].at - s[i as int].at) as u64,
            }
        },
    }
}

/// Decides how the position at `time` is interpolated between the optional
/// actions at indices `a0` (before) and `a1` (after).
pub fn interpolate_position(actions: &Vec<Action>, a0: Option<usize>, a1: Option<usize>, time: u64) -> (r: Interpolation)
    requires
        a0 matches Some(i) ==> i < actions.len(),
        a1 matches Some(j) ==> j < actions.len(),
    ensures
        r == interpolation(actions@, a0, a1, time),
{
    match (a0, a1) {
        (None, None) => Interpolation::Zero,
        (None, Some(j)) => Interpolation::At(j),
        (Some(i), None) => Interpolation::At(i),
        (Some(i), Some(j)) => {
            let t0 = actions[i].at;
            let t1 = actions[j].at;
            if time <= t0 {
                Interpolation::At(i)
            } else if time >= t1 {
                Interpolation::At(j)
            } else if t0 == t1 {
                Interpolation::At(i)
            } else {
                Interpolation::Between { from: i, to: j, elapsed: time - t0, span: t1 - t0 }
            }
        },
    }
}

/// Law: a blend happens strictly inside its pair of actions, with a
/// positive span and a fraction strictly between 0 and 1.
pub proof fn lemma_blend_is_inside(s: Seq<Action>, a0: Option<usize>, a1: Option<usize>, time: u64)
    requires
        a0 matches Some(i) ==> i < s.len(),
        a1 matches Some(j) ==> j < s.len(),
        interpolation(s, a0, a1, time) is Between,
    ensures
        ({
            let b = interpolation(s, a0, a1, time);
            &&& a0 == Some(b->from) && a1 == Some(b->to)
            &&& s[b->from as int].at < time < s[b->to as int].at
            &&& 0 < b->elapsed < b->span
            &&& b->elapsed == time - s[b->from as int].at
            &&& b->span == s[b->to as int].at - s[b->from as int].at
        }),
{
}

/// The index of the last action below index `n` at or before `t`, or -1.
pub open spec fn last_at_or_before(s: Seq<Action>, t: u64, n: int) -> int
    decreases n,
{
    if n <= 0 {
        -1
    } else if s[n - 1].at <= t {
        n - 1
    } else {
        last_at_or_before(s, t, n - 1)
    }
}

/// The index of the last action below index `n` strictly before `t`, or -1.
pub open spec fn last_before(s: Seq<Action>, t: u64, n: int) -> int
    decreases n,
{
    if n <= 0 {
        -1
    } else if s[n - 1].at < t {
        n - 1
    } else {
        last_before(s, t, n - 1)
    }
}

/// The index of the first action from index `i` on at or after `t`, or the
/// length of `s`.
pub open spec fn first_at_or_after(s: Seq<Action>, t: u64, i: int) -> int
    decreases s.len() - i,
{
    if i >= s.len() {
        s.len() as int
    } else if s[i].at >= t {
        i
    } else {
        first_at_or_after(s, t, i + 1)
    }
}

proof fn lemma_search_ranges(s: Seq<Action>, t: u64, n: int)
    requires
        0 <= n <= s.len(),
    ensures
        -1 <= last_at_or_before(s, t, n) < n,
        -1 <= last_before(s, t, n) < n,
    decreases n,
{
    if n > 0 {
        lemma_search_ranges(s, t, n - 1);
    }
}

proof fn lemma_first_range(s: Seq<Action>, t: u64, i: int)
    requires
        0 <= i <= s.len(),
    ensures
        i <= first_at_or_after(s, t, i) <= s.len(),
    decreases s.len() - i,
{
    if i < s.len() {
        lemma_first_range(s, t, i + 1);
    }
}

fn find_last_at_or_before(actions: &Vec<Action>, t: u64, n: usize) -> (r: Option<usize>)
    requires
        n <= actions.len(),
    ensures
        match r {
            Some(i) => i as int == last_at_or_before(actions@, t, n as int),
            None => last_at_or_before(actions@, t, n as int) == -1,
        },
        r matches Some(i) ==> i < n,
{
    proof {
        lemma_search_ranges(actions@, t, n as int);
    }
    let mut j = n;
    while j > 0
        invariant
            j <= n <= actions.len(),
            last_at_or_before(actions@, t, n as int) == last_at_or_before(actions@, t, j as int),
        decreases j,
    {
        if actions[j - 1].at <= t {
            return Some(j - 1);
        }
        j -= 1;
    }
    None
}

fn find_last_before(actions: &Vec<Action>, t: u64, n: usize) -> (r: Option<usize>)
    requires
        n <= actions.len(),
    ensures
        match r {
            Some(i) => i as int == last_before(actions@, t, n as int),
            None => last_before(actions@, t, n as int) == -1,
        },
        r matches Some(i) ==> i < n,
{
    proof {
        lemma_search_ranges(actions@, t, n as int);
    }
    let mut j = n;
    while j > 0
        invariant
            j <= n <= actions.len(),
            last_before(actions@, t, n as int) == last_before(actions@, t, j as int),
        decreases j,
    {
        if actions[j - 1].at < t {
            return Some(j - 1);
        }
        j -= 1;
    }
    None
}

fn find_first_at_or_after(actions: &Vec<Action>, t: u64) -> (r: usize)
    ensures
        r as int == first_at_or_after(actions@, t, 0),
{
    let mut i: usize = 0;
    while i < actions.len()
        invariant
            i <= actions.len(),
            first_at_or_after(actions@, t, 0) == first_at_or_after(actions@, t, i as int),
        decreases actions.len() - i,
    {
        if actions[i].at >= t {
            return i;
        }
        i += 1;
    }
    i
}


/// A position sample of a window: its time and how its position is found.
#[derive(Clone, Copy, Debug, PartialEq, Eq, Structural)]
pub struct WindowPoint {
    pub at: u64,
    pub source: Interpolation,
}

/// A change of position between two successive samples of a window whose
/// times differ; the window's motion is the sum of their sizes.
#[derive(Clone, Copy, Debug, PartialEq, Eq, Structural)]
pub struct PositionChange {
    pub before: Interpolation,
    pub after: Interpolation,
}

/// The index of the action that anchors the start of a window: the last one
/// at or before `window_start`, else the first.
pub open spec fn window_start_index(s: Seq<Action>, window_start: u64) -> int {
    let r = last_at_or_before(s, window_start, s.len() as int);
    if r >= 0 {
        r
    } else {
        0
    }
}

/// The index of the action that anchors the end of a window: the first one
/// at or after `window_end`, else the last.
pub open spec fn window_end_index(s: Seq<Action>, window_end: u64) -> int {
    let f = first_at_or_after(s, window_end, 0);
    if f < s.len() {
        f
    } else {
        s.len() - 1
    }
}

/// The indices below `n` of the actions strictly inside the window.
pub open spec fn inner_indices_below(s: Seq<Action>, window_start: u64, window_end: u64, n: int) -> Seq<int> {
    Seq::new(n as nat, |i: int| i).filter(|i: int| window_start < s[i].at < window_end)
}

/// The samples of the actions strictly inside the window, in their order.
pub open spec fn inner_points(s: Seq<Action>, window_start: u64, window_end: u64) -> Seq<WindowPoint> {
    inner_indices_below(s, window_start, window_end, s.len() as int).map_values(
        |i: int| WindowPoint { at: s[i].at, source: Interpolation::At(i as usize) },
    )
}

/// The samples of a window: the interpolated start, the actions strictly
/// inside, and the interpolated end (between the last action before the end,
/// or else the start anchor, and the end anchor).
pub open spec fn window_points(s: Seq<Action>, window_start: u64, window_end: u64) -> Seq<WindowPoint> {
    let si = window_start_index(s, window_start);
    let ei = window_end_index(s, window_end);
    let next = if si + 1 < s.len() {
        Some((si + 1) as usize)
    } else {
        None
    };
    let lb = last_before(s, window_end, ei);
    let prev = if lb >= 0 {
        lb
    } else {
        si
    };
    seq![WindowPoint { at: window_start, source: interpolation(s, Some(si as usize), next, window_start) }]
        + inner_points(s, window_start, window_end) + seq![
        WindowPoint {
            at: window_end,
            source: interpolation(s, Some(prev as usize), Some(ei as usize), window_end),
        },
    ]
}

/// The indices `k < m` where sample `k + 1` comes strictly later than
/// sample `k`.
pub open spec fn rising_below(pts: Seq<WindowPoint>, m: int) -> Seq<int> {
    Seq::new(m as nat, |k: int| k).filter(|k: int| pts[k + 1].at > pts[k].at)
}

/// The position changes between successive samples whose times differ.
pub open spec fn position_changes(pts: Seq<WindowPoint>) -> Seq<PositionChange> {
    rising_below(pts, pts.len() - 1).map_values(
        |k: int| PositionChange { before: pts[k].source, after: pts[k + 1].source },
    )
}

/// The position changes that make up the motion inside a window.
pub open spec fn window_changes(s: Seq<Action>, window_start: u64, window_end: u64) -> Seq<PositionChange> {
    position_changes(window_points(s, window_start, window_end))
}

proof fn lemma_inner_step(s: Seq<Action>, window_start: u64, window_end: u64, i: int)
    requires
        0 <= i,
    ensures
        inner_indices_below(s, window_start, window_end, i + 1) == if window_start < s[i].at
            < window_end {
            inner_indices_below(s, window_start, window_end, i).push(i)
        } else {
            inner_indices_below(s, window_start, window_end, i)
        },
{
    let pred = |j: int| window_start < s[j].at < window_end;
    assert(Seq::new((i + 1) as nat, |j: int| j) =~= Seq::new(i as nat, |j: int| j).push(i));
    Seq::new(i as nat, |j: int| j).lemma_filter_push(i, pred);
}

proof fn lemma_rising_step(pts: Seq<WindowPoint>, k: int)
    requires
        0 <= k,
    ensures
        rising_below(pts, k + 1) == if pts[k + 1].at > pts[k].at {
            rising_below(pts, k).push(k)
        } else {
            rising_below(pts, k)
        },
{
    let pred = |j: int| pts[j + 1].at > pts[j].at;
    assert(Seq::new((k + 1) as nat, |j: int| j) =~= Seq::new(k as nat, |j: int| j).push(k));
    Seq::new(k as nat, |j: int| j).lemma_filter_push(k, pred);
}

proof fn lemma_empty_filters(s: Seq<Action>, window_start: u64, window_end: u64, pts: Seq<WindowPoint>)
    ensures
        inner_indices_below(s, window_start, window_end, 0) == Seq::<int>::empty(),
        rising_below(pts, 0) == Seq::<int>::empty(),
{
    reveal(Seq::filter);
    assert(Seq::new(0, |j: int| j) =~= Seq::<int>::empty());
}

proof fn lemma_inner_props(s: Seq<Action>, window_start: u64, window_end: u64, n: int)
    requires
        0 <= n <= s.len(),
    ensures
        forall|k: int|
            0 <= k < inner_indices_below(s, window_start, window_end, n).len() ==> {
                let i = #[trigger] inner_indices_below(s, window_start, window_end, n)[k];
                0 <= i < n && window_start < s[i].at < window_end
            },
        forall|k: int, l: int|
            0 <= k < l < inner_indices_below(s, window_start, window_end, n).len()
                ==> #[trigger] inner_indices_below(s, window_start, window_end, n)[k]
                < #[trigger] inner_indices_below(s, window_start, window_end, n)[l],
    decreases n,
{
    if n == 0 {
        lemma_empty_filters(s, window_start, window_end, Seq::<WindowPoint>::empty());
    } else {
        lemma_inner_props(s, window_start, window_end, n - 1);
        lemma_inner_step(s, window_start, window_end, n - 1);
    }
}

proof fn lemma_window_points_shape(s: Seq<Action>, window_start: u64, window_end: u64)
    ensures
        window_points(s, window_start, window_end).len() == inner_indices_below(
            s,
            window_start,
            window_end,
            s.len() as int,
        ).len() + 2,
        window_points(s, window_start, window_end)[0].at == window_start,
        window_points(s, window_start, window_end)[window_points(s, window_start, window_end).len()
            - 1].at == window_end,
        forall|k: int|
            0 < k < window_points(s, window_start, window_end).len() - 1 ==> #[trigger] window_points(
                s,
                window_start,
                window_end,
            )[k] == (WindowPoint {
                at: s[inner_indices_below(s, window_start, window_end, s.len() as int)[k - 1]].at,
                source: Interpolation::At(
                    inner_indices_below(s, window_start, window_end, s.len() as int)[k - 1] as usize,
                ),
            }),
{
}

/// Law: the samples strictly inside a window are exactly the actions timed
/// strictly inside it, each once and in their order: every inner sample is
/// such an action at its own time, and every such action is an inner sample.
#[verifier::rlimit(40)]
pub proof fn lemma_window_points_complete(s: Seq<Action>, window_start: u64, window_end: u64)
    requires
        s.len() <= usize::MAX,
    ensures
        ({
            let pts = window_points(s, window_start, window_end);
            &&& pts.len() >= 2
            &&& pts[0].at == window_start
            &&& pts[pts.len() - 1].at == window_end
            &&& forall|k: int|
                0 < k < pts.len() - 1 ==> exists|i: int|
                    0 <= i < s.len() && window_start < s[i].at < window_end && #[trigger] pts[k]
                        == (WindowPoint { at: s[i].at, source: Interpolation::At(i as usize) })
            &&& forall|i: int|
                0 <= i < s.len() && window_start < #[trigger] s[i].at < window_end ==> exists|k: int|
                    0 < k < pts.len() - 1 && #[trigger] pts[k] == (WindowPoint {
                        at: s[i].at,
                        source: Interpolation::At(i as usize),
                    })
            &&& forall|k: int, l: int|
                0 < k < l < pts.len() - 1 ==> (#[trigger] pts[k]).source->At_0 < (
                #[trigger] pts[l]).source->At_0
        }),
{
    let n = s.len() as int;
    let pts = window_points(s, window_start, window_end);
    let idx = inner_indices_below(s, window_start, window_end, n);
    lemma_window_points_shape(s, window_start, window_end);
    lemma_inner_props(s, window_start, window_end, n);
    lemma_inner_members(s, window_start, window_end, n);
    assert forall|k: int| 0 < k < pts.len() - 1 implies exists|i: int|
        0 <= i < s.len() && window_start < s[i].at < window_end && #[trigger] pts[k] == (WindowPoint {
            at: s[i].at,
            source: Interpolation::At(i as usize),
        }) by {
        let i = idx[k - 1];
        assert(pts[k] == WindowPoint { at: s[i].at, source: Interpolation::At(i as usize) });
    }
    assert forall|i: int| 0 <= i < s.len() && window_start < #[trigger] s[i].at < window_end implies exists|k: int|
        0 < k < pts.len() - 1 && #[trigger] pts[k] == (WindowPoint {
            at: s[i].at,
            source: Interpolation::At(i as usize),
        }) by {
        assert(idx.contains(i));
        let j = choose|j: int| 0 <= j < idx.len() && idx[j] == i;
        assert(pts[j + 1] == WindowPoint { at: s[i].at, source: Interpolation::At(i as usize) });
    }
    assert forall|k: int, l: int| 0 < k < l < pts.len() - 1 implies (#[trigger] pts[k]).source->At_0
        < (#[trigger] pts[l]).source->At_0 by {
        assert(idx[k - 1] < idx[l - 1]);
        assert(pts[k].source == Interpolation::At(idx[k - 1] as usize));
        assert(pts[l].source == Interpolation::At(idx[l - 1] as usize));
    }
}

proof fn lemma_inner_members(s: Seq<Action>, window_start: u64, window_end: u64, n: int)
    requires
        0 <= n <= s.len(),
    ensures
        forall|i: int|
            0 <= i < n && window_start < #[trigger] s[i].at < window_end ==> inner_indices_below(
                s,
                window_start,
                window_end,
                n,
            ).contains(i),
    decreases n,
{
    if n == 0 {
    } else {
        lemma_inner_members(s, window_start, window_end, n - 1);
        lemma_inner_step(s, window_start, window_end, n - 1);
        let prev = inner_indices_below(s, window_start, window_end, n - 1);
        let cur = inner_indices_below(s, window_start, window_end, n);
        assert forall|i: int| 0 <= i < n && window_start < #[trigger] s[i].at < window_end implies cur.contains(i) by {
            if i < n - 1 {
                let k = choose|k: int| 0 <= k < prev.len() && prev[k] == i;
                assert(cur[k] == i);
            } else {
                assert(cur[cur.len() - 1] == i);
            }
        }
    }
}

/// Law: a window's position changes are the moves between successive
/// samples whose times differ, in order: every such move is among them, and
/// each of them is such a move.
#[verifier::rlimit(40)]
pub proof fn lemma_window_changes_are_moves(s: Seq<Action>, window_start: u64, window_end: u64)
    ensures
        ({
            let pts = window_points(s, window_start, window_end);
            let ch = window_changes(s, window_start, window_end);
            &&& ch.len() <= pts.len() - 1
            &&& forall|k: int|
                0 <= k < pts.len() - 1 && pts[k + 1].at > pts[k].at ==> ch.contains(
                    PositionChange { before: (#[trigger] pts[k]).source, after: pts[k + 1].source },
                )
            &&& forall|j: int|
                #![trigger ch[j]]
                0 <= j < ch.len() ==> exists|k: int|
                    0 <= k < pts.len() - 1 && pts[k + 1].at > (#[trigger] pts[k]).at && ch[j]
                        == (PositionChange { before: pts[k].source, after: pts[k + 1].source })
        }),
{
    let pts = window_points(s, window_start, window_end);
    let m = pts.len() - 1;
    let r = rising_below(pts, m);
    let ch = window_changes(s, window_start, window_end);
    lemma_rising_range(pts, m);
    lemma_rising_members(pts, m);
    lemma_rising_len(pts, m);
    assert forall|k: int| 0 <= k < m && pts[k + 1].at > pts[k].at implies ch.contains(
        PositionChange { before: (#[trigger] pts[k]).source, after: pts[k + 1].source },
    ) by {
        assert(r.contains(k));
        let j = choose|j: int| 0 <= j < r.len() && r[j] == k;
        assert(ch[j] == PositionChange { before: pts[k].source, after: pts[k + 1].source });
    }
    assert forall|j: int| #![trigger ch[j]] 0 <= j < ch.len() implies exists|k: int|
        0 <= k < m && pts[k + 1].at > (#[trigger] pts[k]).at && ch[j] == (PositionChange {
            before: pts[k].source,
            after: pts[k + 1].source,
        }) by {
        let k = r[j];
        assert(pts[k + 1].at > pts[k].at);
        assert(ch[j] == PositionChange { before: pts[k].source, after: pts[k + 1].source });
    }
}

proof fn lemma_rising_members(pts: Seq<WindowPoint>, m: int)
    requires
        0 <= m,
    ensures
        forall|k: int|
            0 <= k < m && pts[k + 1].at > (#[trigger] pts[k]).at ==> rising_below(pts, m).contains(k),
        forall|j: int|
            0 <= j < rising_below(pts, m).len() ==> pts[rising_below(pts, m)[j] + 1].at > pts[
            #[trigger] rising_below(pts, m)[j]].at,
    decreases m,
{
    if m == 0 {
        lemma_empty_filters(Seq::<Action>::empty(), 0, 0, pts);
    } else {
        lemma_rising_members(pts, m - 1);
        lemma_rising_step(pts, m - 1);
        let prev = rising_below(pts, m - 1);
        let cur = rising_below(pts, m);
        assert forall|k: int| 0 <= k < m && pts[k + 1].at > (#[trigger] pts[k]).at implies cur.contains(k) by {
            if k < m - 1 {
                let j = choose|j: int| 0 <= j < prev.len() && prev[j] == k;
                assert(cur[j] == k);
            } else {
                assert(cur[cur.len() - 1] == k);
            }
        }
    }
}

proof fn lemma_rising_len(pts: Seq<WindowPoint>, m: int)
    requires
        0 <= m,
    ensures
        rising_below(pts, m).len() <= m,
    decreases m,
{
    if m == 0 {
        lemma_empty_filters(Seq::<Action>::empty(), 0, 0, pts);
    } else {
        lemma_rising_len(pts, m - 1);
        lemma_rising_step(pts, m - 1);
    }
}

/// Law: a window's samples open at its start and close at its end, all lie
/// inside it, and over actions in time order they come in time order.
pub proof fn lemma_window_points_in_order(s: Seq<Action>, window_start: u64, window_end: u64)
    requires
        s.len() > 0,
        window_start <= window_end,
    ensures
        ({
            let pts = window_points(s, window_start, window_end);
            &&& pts.len() >= 2
            &&& pts[0].at == window_start
            &&& pts.last().at == window_end
            &&& forall|k: int| 0 <= k < pts.len() ==> window_start <= (#[trigger] pts[k]).at <= window_end
            &&& crate::funscript::is_time_sorted(s) ==> forall|k: int, l: int|
                0 <= k <= l < pts.len() ==> (#[trigger] pts[k]).at <= (#[trigger] pts[l]).at
        }),
{
    let n = s.len() as int;
    let pts = window_points(s, window_start, window_end);
    let idx = inner_indices_below(s, window_start, window_end, n);
    let inner = inner_points(s, window_start, window_end);
    lemma_inner_props(s, window_start, window_end, n);
    assert forall|k: int| 0 <= k < inner.len() implies window_start < (#[trigger] inner[k]).at
        < window_end && inner[k].at == s[idx[k]].at by {}
    assert forall|k: int| 0 <= k < pts.len() implies window_start <= (#[trigger] pts[k]).at
        <= window_end by {
        if 0 < k < pts.len() - 1 {
            assert(pts[k] == inner[k - 1]);
        }
    }
    if crate::funscript::is_time_sorted(s) {
        assert forall|k: int, l: int| 0 <= k <= l < pts.len() implies (#[trigger] pts[k]).at <= (
        #[trigger] pts[l]).at by {
            if 0 < k && l < pts.len() - 1 {
                assert(pts[k] == inner[k - 1]);
                assert(pts[l] == inner[l - 1]);
                if k < l {
                    assert(idx[k - 1] < idx[l - 1]);
                }
            }
        }
    }
}

/// The actions of `s`, each moved `d` milliseconds later.
pub open spec fn shifted(s: Seq<Action>, d: u64) -> Seq<Action> {
    s.map_values(|a: Action| Action { at: (a.at + d) as u64, pos: a.pos })
}

/// Every timestamp of `s` can be moved `d` milliseconds later.
pub open spec fn can_shift(s: Seq<Action>, d: u64) -> bool {
    forall|i: int| 0 <= i < s.len() ==> (#[trigger] s[i]).at + d <= u64::MAX
}

proof fn lemma_searches_shift(s: Seq<Action>, d: u64, t: u64, n: int)
    requires
        can_shift(s, d),
        t + d <= u64::MAX,
        0 <= n <= s.len(),
    ensures
        last_at_or_before(shifted(s, d), (t + d) as u64, n) == last_at_or_before(s, t, n),
        last_before(shifted(s, d), (t + d) as u64, n) == last_before(s, t, n),
    decreases n,
{
    if n > 0 {
        lemma_searches_shift(s, d, t, n - 1);
        assert(shifted(s, d)[n - 1].at == s[n - 1].at + d);
    }
}

proof fn lemma_first_shift(s: Seq<Action>, d: u64, t: u64, i: int)
    requires
        can_shift(s, d),
        t + d <= u64::MAX,
        0 <= i <= s.len(),
    ensures
        first_at_or_after(shifted(s, d), (t + d) as u64, i) == first_at_or_after(s, t, i),
    decreases s.len() - i,
{
    if i < s.len() {
        lemma_first_shift(s, d, t, i + 1);
        assert(shifted(s, d)[i].at == s[i].at + d);
    }
}

proof fn lemma_inner_shift(s: Seq<Action>, d: u64, window_start: u64, window_end: u64, n: int)
    requires
        can_shift(s, d),
        window_start + d <= u64::MAX,
        window_end + d <= u64::MAX,
        0 <= n <= s.len(),
    ensures
        inner_indices_below(shifted(s, d), (window_start + d) as u64, (window_end + d) as u64, n)
            == inner_indices_below(s, window_start, window_end, n),
    decreases n,
{
    if n == 0 {
        lemma_empty_filters(s, window_start, window_end, Seq::<WindowPoint>::empty());
        lemma_empty_filters(
            shifted(s, d),
            (window_start + d) as u64,
            (window_end + d) as u64,
            Seq::<WindowPoint>::empty(),
        );
    } else {
        lemma_inner_shift(s, d, window_start, window_end, n - 1);
        lemma_inner_step(s, window_start, window_end, n - 1);
        lemma_inner_step(shifted(s, d), (window_start + d) as u64, (window_end + d) as u64, n - 1);
        assert(shifted(s, d)[n - 1].at == s[n - 1].at + d);
    }
}

proof fn lemma_rising_shift(pts: Seq<WindowPoint>, moved: Seq<WindowPoint>, m: int)
    requires
        0 <= m < pts.len(),
        moved.len() == pts.len(),
        forall|k: int| 0 <= k < pts.len() ==> (#[trigger] moved[k]).at == pts[k].at + (moved[0].at - pts[0].at),
    ensures
        rising_below(moved, m) == rising_below(pts, m),
    decreases m,
{
    if m == 0 {
        lemma_empty_filters(Seq::<Action>::empty(), 0, 0, pts);
        lemma_empty_filters(Seq::<Action>::empty(), 0, 0, moved);
    } else {
        lemma_rising_shift(pts, moved, m - 1);
        lemma_rising_step(pts, m - 1);
        lemma_rising_step(moved, m - 1);
        assert(moved[m].at == pts[m].at + (moved[0].at - pts[0].at));
        assert(moved[m - 1].at == pts[m - 1].at + (moved[0].at - pts[0].at));
    }
}

proof fn lemma_rising_range(pts: Seq<WindowPoint>, m: int)
    requires
        0 <= m,
    ensures
        forall|j: int|
            0 <= j < rising_below(pts, m).len() ==> 0 <= #[trigger] rising_below(pts, m)[j] < m,
    decreases m,
{
    if m == 0 {
        lemma_empty_filters(Seq::<Action>::empty(), 0, 0, pts);
    } else {
        lemma_rising_range(pts, m - 1);
        lemma_rising_step(pts, m - 1);
    }
}

/// Law: moving all actions and the window by the same number of
/// milliseconds leaves the window's position changes (indices, elapsed times
/// and spans) unchanged.
pub proof fn lemma_window_changes_shift(s: Seq<Action>, d: u64, window_start: u64, window_end: u64)
    requires
        s.len() > 0,
        can_shift(s, d),
        window_start + d <= u64::MAX,
        window_end + d <= u64::MAX,
    ensures
        window_changes(shifted(s, d), (window_start + d) as u64, (window_end + d) as u64)
            == window_changes(s, window_start, window_end),
{
    let n = s.len() as int;
    let s2 = shifted(s, d);
    let ws2 = (window_start + d) as u64;
    let we2 = (window_end + d) as u64;
    lemma_searches_shift(s, d, window_start, n);
    lemma_first_shift(s, d, window_end, 0);
    lemma_first_range(s, window_end, 0);
    lemma_search_ranges(s, window_start, n);
    let ei = window_end_index(s, window_end);
    lemma_searches_shift(s, d, window_end, ei);
    lemma_search_ranges(s, window_end, ei);
    lemma_inner_shift(s, d, window_start, window_end, n);
    let pts = window_points(s, window_start, window_end);
    let pts2 = window_points(s2, ws2, we2);
    let idx = inner_indices_below(s, window_start, window_end, n);
    lemma_inner_props(s, window_start, window_end, n);
    assert forall|i: int| 0 <= i < n implies (#[trigger] s2[i]).at == s[i].at + d by {}
    assert(pts2.len() == pts.len());
    assert forall|k: int| 0 <= k < pts.len() implies (#[trigger] pts2[k]).at == pts[k].at + d
        && pts2[k].source == pts[k].source by {
        if 0 < k < pts.len() - 1 {
            assert(pts[k].at == s[idx[k - 1]].at);
            assert(pts2[k].at == s2[idx[k - 1]].at);
        }
    }
    lemma_rising_shift(pts, pts2, pts.len() - 1);
    lemma_rising_range(pts, pts.len() - 1);
    let r = rising_below(pts, pts.len() - 1);
    assert forall|j: int| 0 <= j < r.len() implies #[trigger] window_changes(s2, ws2, we2)[j]
        == window_changes(s, window_start, window_end)[j] by {
        let k = r[j];
        assert(pts2[k].source == pts[k].source);
        assert(pts2[k + 1].source == pts[k + 1].source);
    }
    assert(window_changes(s2, ws2, we2) =~= window_changes(s, window_start, window_end));
}

proof fn lemma_last_at_or_before_meaning(s: Seq<Action>, t: u64, n: int)
    requires
        0 <= n <= s.len(),
    ensures
        ({
            let r = last_at_or_before(s, t, n);
            &&& -1 <= r < n
            &&& r >= 0 ==> s[r].at <= t
            &&& forall|j: int| r < j < n ==> (#[trigger] s[j]).at > t
        }),
    decreases n,
{
    if n > 0 {
        lemma_last_at_or_before_meaning(s, t, n - 1);
    }
}

proof fn lemma_last_before_meaning(s: Seq<Action>, t: u64, n: int)
    requires
        0 <= n <= s.len(),
    ensures
        ({
            let r = last_before(s, t, n);
            &&& -1 <= r < n
            &&& r >= 0 ==> s[r].at < t
            &&& forall|j: int| r < j < n ==> (#[trigger] s[j]).at >= t
        }),
    decreases n,
{
    if n > 0 {
        lemma_last_before_meaning(s, t, n - 1);
    }
}

proof fn lemma_first_at_or_after_meaning(s: Seq<Action>, t: u64, i: int)
    requires
        0 <= i <= s.len(),
    ensures
        ({
            let f = first_at_or_after(s, t, i);
            &&& i <= f <= s.len()
            &&& f < s.len() ==> s[f].at >= t
            &&& forall|j: int| i <= j < f ==> (#[trigger] s[j]).at < t
        }),
    decreases s.len() - i,
{
    if i < s.len() {
        lemma_first_at_or_after_meaning(s, t, i + 1);
    }
}

/// A window sample at time `p.at` stands for what the actions in time order
/// say about that instant: either an action at exactly that time, or the
/// first action when the instant comes before all actions, or the last one
/// when it comes after all of them; or a blend between two neighbouring
/// actions around the instant with no action timed strictly between them.
pub open spec fn sample_is_faithful(s: Seq<Action>, p: WindowPoint) -> bool {
    let n = s.len() as int;
    match p.source {
        Interpolation::At(i) => {
            &&& i < n
            &&& (s[i as int].at == p.at || (i == 0 && p.at < s[0].at) || (i == n - 1 && p.at
                > s[n - 1].at))
        },
        Interpolation::Between { from, to, elapsed, span } => {
            &&& to == from + 1
            &&& to < n
            &&& s[from as int].at < p.at < s[to as int].at
            &&& elapsed == p.at - s[from as int].at
            &&& span == s[to as int].at - s[from as int].at
            &&& forall|j: int|
                0 <= j < n ==> !(s[from as int].at < (#[trigger] s[j]).at < s[to as int].at)
        },
        Interpolation::Zero => false,
    }
}

/// Law: over actions in time order, every sample of a window is faithful to
/// the actions around its time.
pub proof fn lemma_window_samples_faithful(s: Seq<Action>, window_start: u64, window_end: u64)
    requires
        0 < s.len() <= usize::MAX,
        window_start <= window_end,
        crate::funscript::is_time_sorted(s),
    ensures
        forall|k: int|
            0 <= k < window_points(s, window_start, window_end).len() ==> sample_is_faithful(
                s,
                #[trigger] window_points(s, window_start, window_end)[k],
            ),
{
    let n = s.len() as int;
    let pts = window_points(s, window_start, window_end);
    let idx = inner_indices_below(s, window_start, window_end, n);
    lemma_inner_props(s, window_start, window_end, n);
    lemma_last_at_or_before_meaning(s, window_start, n);
    lemma_first_at_or_after_meaning(s, window_end, 0);
    let ls = last_at_or_before(s, window_start, n);
    let si = window_start_index(s, window_start);
    let f = first_at_or_after(s, window_end, 0);
    let ei = window_end_index(s, window_end);
    lemma_last_before_meaning(s, window_end, ei);
    let lb = last_before(s, window_end, ei);
    // start sample
    assert(sample_is_faithful(s, pts[0])) by {
        if ls >= 0 && ls + 1 < n {
            if s[ls].at < window_start {
                assert(window_start < s[ls + 1].at);
                assert forall|j: int| 0 <= j < n implies !(s[ls].at < (#[trigger] s[j]).at < s[ls
                    + 1].at) by {
                    if j <= ls {
                        assert(s[j].at <= s[ls].at);
                    } else {
                        assert(s[ls + 1].at <= s[j].at);
                    }
                }
            }
        } else if ls < 0 && n > 1 {
            assert(s[0].at > window_start);
        } else if ls < 0 {
            assert(s[0].at > window_start);
        }
    }
    // end sample
    assert(sample_is_faithful(s, pts[pts.len() - 1])) by {
        if f < n {
            if f > 0 {
                assert(s[f - 1].at < window_end);
                assert(lb == f - 1);
                if s[f].at > window_end {
                    assert forall|j: int| 0 <= j < n implies !(s[f - 1].at < (#[trigger] s[j]).at
                        < s[f].at) by {
                        if j <= f - 1 {
                            assert(s[j].at <= s[f - 1].at);
                        } else {
                            assert(s[f].at <= s[j].at);
                        }
                    }
                }
            } else {
                assert(lb == -1);
                if ls >= 0 {
                    assert(s[0].at <= s[ls].at);
                }
            }
        } else {
            assert(s[n - 1].at < window_end);
            if n >= 2 {
                assert(s[n - 2].at < window_end);
                assert(lb == n - 2);
            } else {
                assert(lb == -1);
            }
        }
    }
    assert forall|k: int| 0 <= k < pts.len() implies sample_is_faithful(s, #[trigger] pts[k]) by {
        if 0 < k < pts.len() - 1 {
            assert(pts[k].source == Interpolation::At(idx[k - 1] as usize));
            assert(pts[k].at == s[idx[k - 1]].at);
        }
    }
}

fn window_points_exec(actions: &Vec<Action>, window_start: u64, window_end: u64) -> (pts: Vec<WindowPoint>)
    requires
        actions.len() > 0,
    ensures
        pts@ == window_points(actions@, window_start, window_end),
{
    let ghost s = actions@;
    let n = actions.len();
    let si = match find_last_at_or_before(actions, window_start, n) {
        Some(i) => i,
        None => 0,
    };
    let next = if si + 1 < n {
        Some(si + 1)
    } else {
        None
    };
    let mut pts: Vec<WindowPoint> = Vec::new();
    pts.push(WindowPoint { at: window_start, source: interpolate_position(actions, Some(si), next, window_start) });
    let mut i: usize = 0;
    proof {
        lemma_empty_filters(s, window_start, window_end, pts@);
    }
    while i < n
        invariant
            s == actions@,
            n == s.len(),
            i <= n,
            pts@ =~= seq![WindowPoint { at: window_start, source: interpolation(s, Some(si), next, window_start) }]
                + inner_indices_below(s, window_start, window_end, i as int).map_values(
                |j: int| WindowPoint { at: s[j].at, source: Interpolation::At(j as usize) },
            ),
        decreases n - i,
    {
        proof {
            lemma_inner_step(s, window_start, window_end, i as int);
        }
        let a = actions[i];
        if window_start < a.at && a.at < window_end {
            pts.push(WindowPoint { at: a.at, source: Interpolation::At(i) });
        }
        i += 1;
    }
    let ei0 = find_first_at_or_after(actions, window_end);
    let ei = if ei0 < n {
        ei0
    } else {
        n - 1
    };
    let prev = match find_last_before(actions, window_end, ei) {
        Some(k) => k,
        None => si,
    };
    pts.push(WindowPoint { at: window_end, source: interpolate_position(actions, Some(prev), Some(ei), window_end) });
    pts
}

/// The position changes that make up the motion inside the window from
/// `window_start` to `window_end`.
pub fn window_changes_exec(actions: &Vec<Action>, window_start: u64, window_end: u64) -> (changes: Vec<PositionChange>)
    requires
        actions.len() > 0,
    ensures
        changes@ == window_changes(actions@, window_start, window_end),
{
    let pts = window_points_exec(actions, window_start, window_end);
    let ghost p = pts@;
    let mut changes: Vec<PositionChange> = Vec::new();
    let m = pts.len() - 1;
    let mut k: usize = 0;
    proof {
        lemma_empty_filters(actions@, window_start, window_end, p);
    }
    while k < m
        invariant
            p == pts@,
            m == p.len() - 1,
            k <= m,
            changes@ =~= rising_below(p, k as int).map_values(
                |j: int| PositionChange { before: p[j].source, after: p[j + 1].source },
            ),
        decreases m - k,
    {
        proof {
            lemma_rising_step(p, k as int);
        }
        if pts[k + 1].at > pts[k].at {
            changes.push(PositionChange { before: pts[k].source, after: pts[k + 1].source });
        }
        k += 1;
    }
    changes
}

} // verus!
