//! Laws of the curve evaluator.
//!
//! The evaluator tolerates arbitrary input — unsorted points, duplicate
//! temperatures, outputs beyond 100 — by sorting, tie-breaking and
//! clamping. The stronger laws below therefore speak of curves with
//! pairwise-distinct temperatures and in-range outputs; on such curves
//! the evaluator hits every point exactly, clamps to the covered
//! temperature range, and is monotone precisely when the curve itself is.

use vstd::prelude::*;
use vstd::arithmetic::div_mod::{
    lemma_div_basics, lemma_div_is_ordered, lemma_div_multiples_vanish, lemma_div_pos_is_pos,
};
use vstd::arithmetic::mul::lemma_mul_inequality;
use crate::curve::{
    clamp_percent, eval_sorted, eval_windows, interp, out_of, sort_points, sorted_by_temp,
    target_speed, temp_of, lemma_sort_points_ensures, lemma_sort_points_contains,
};

verus! {

/// No two points of the curve share a temperature.
pub open spec fn distinct_temps(pts: Seq<(u32, u32)>) -> bool {
    forall|i: int, j: int|
        0 <= i < pts.len() && 0 <= j < pts.len() && i != j ==> temp_of(#[trigger] pts[i])
            != temp_of(#[trigger] pts[j])
}

/// Every output of the curve lies within the percentage range.
pub open spec fn outputs_in_range(pts: Seq<(u32, u32)>) -> bool {
    forall|i: int| 0 <= i < pts.len() ==> out_of(#[trigger] pts[i]) <= 100
}

/// The curve's outputs are non-decreasing in temperature.
pub open spec fn curve_monotone(pts: Seq<(u32, u32)>) -> bool {
    forall|i: int, j: int|
        0 <= i < pts.len() && 0 <= j < pts.len() && temp_of(#[trigger] pts[i]) <= temp_of(
            #[trigger] pts[j],
        ) ==> out_of(pts[i]) <= out_of(pts[j])
}

/// Evaluation is monotone non-decreasing in the temperature.
pub open spec fn eval_monotone(pts: Seq<(u32, u32)>) -> bool {
    forall|t1: int, t2: int|
        t1 <= t2 ==> #[trigger] target_speed(t1, pts) <= #[trigger] target_speed(t2, pts)
}

/// The points are ordered by strictly increasing temperature.
pub open spec fn strictly_sorted(s: Seq<(u32, u32)>) -> bool {
    forall|i: int, j: int|
        0 <= i < j < s.len() ==> temp_of(#[trigger] s[i]) < temp_of(#[trigger] s[j])
}

/// The outputs are non-decreasing along the sequence order.
pub open spec fn outputs_nondecreasing(s: Seq<(u32, u32)>) -> bool {
    forall|i: int, j: int|
        0 <= i <= j < s.len() ==> out_of(#[trigger] s[i]) <= out_of(#[trigger] s[j])
}

/// On a curve with distinct temperatures, sorting yields a strictly
/// ordered sequence of exactly the original points.
proof fn lemma_sort_distinct(pts: Seq<(u32, u32)>)
    requires
        distinct_temps(pts),
    ensures
        sort_points(pts).len() == pts.len(),
        strictly_sorted(sort_points(pts)),
        forall|m: int| 0 <= m < pts.len() ==> pts.contains(#[trigger] sort_points(pts)[m]),
        forall|k: int| 0 <= k < pts.len() ==> sort_points(pts).contains(#[trigger] pts[k]),
{
    broadcast use vstd::seq_lib::group_to_multiset_ensures;

    let s = sort_points(pts);
    lemma_sort_points_ensures(pts);
    assert forall|m: int| 0 <= m < pts.len() implies pts.contains(#[trigger] s[m]) by {
        assert(s.contains(s[m]));
        lemma_sort_points_contains(pts, s[m]);
    }
    assert forall|k: int| 0 <= k < pts.len() implies s.contains(#[trigger] pts[k]) by {
        lemma_sort_points_contains(pts, pts[k]);
    }
    assert(pts.no_duplicates()) by {
        assert forall|i: int, j: int|
            0 <= i < pts.len() && 0 <= j < pts.len() && i != j implies pts[i] != pts[j] by {
            assert(temp_of(pts[i]) != temp_of(pts[j]));
        }
    }
    pts.lemma_multiset_has_no_duplicates();
    s.lemma_multiset_has_no_duplicates_conv();
    assert forall|i: int, j: int| 0 <= i < j < s.len() implies temp_of(#[trigger] s[i]) < temp_of(
        #[trigger] s[j],
    ) by {
        assert(temp_of(s[i]) <= temp_of(s[j]));
        if temp_of(s[i]) == temp_of(s[j]) {
            assert(s[i] != s[j]);
            lemma_sort_points_contains(pts, s[i]);
            lemma_sort_points_contains(pts, s[j]);
            let a = choose|a: int| 0 <= a < pts.len() && pts[a] == s[i];
            let b = choose|b: int| 0 <= b < pts.len() && pts[b] == s[j];
            assert(a != b);
            assert(temp_of(pts[a]) != temp_of(pts[b]));
        }
    }
}

/// The first qualifying window decides the result of the search.
proof fn lemma_eval_windows_first(t: int, s: Seq<(u32, u32)>, m: int)
    requires
        0 <= m,
        m + 1 < s.len(),
        forall|i: int|
            0 <= i < m ==> !(temp_of(#[trigger] s[i]) <= t && t < temp_of(s[i + 1])),
        temp_of(s[m]) <= t && t < temp_of(s[m + 1]),
    ensures
        eval_windows(t, s) == clamp_percent(interp(t, s[m], s[m + 1])),
    decreases m,
{
    if m == 0 {
    } else {
        let d = s.drop_first();
        assert(forall|i: int| 0 <= i < d.len() ==> #[trigger] d[i] == s[i + 1]);
        assert forall|i: int|
            0 <= i < m - 1 implies !(temp_of(#[trigger] d[i]) <= t && t < temp_of(d[i + 1])) by {
            assert(d[i] == s[i + 1] && d[i + 1] == s[i + 2]);
            assert(!(temp_of(s[i + 1]) <= t && t < temp_of(s[i + 2])));
        }
        lemma_eval_windows_first(t, d, m - 1);
    }
}

/// Interpolating with a zero temperature offset yields the left point's
/// output.
proof fn lemma_interp_at_left(p1: (u32, u32), p2: (u32, u32))
    requires
        temp_of(p1) < temp_of(p2),
    ensures
        interp(temp_of(p1), p1, p2) == out_of(p1),
{
    lemma_div_basics(temp_of(p2) - temp_of(p1));
}

/// Exact hit: with distinct temperatures, evaluating at a point's own
/// temperature returns that point's output, clamped.
pub proof fn lemma_exact_point(pts: Seq<(u32, u32)>, k: int)
    requires
        distinct_temps(pts),
        0 <= k < pts.len(),
    ensures
        target_speed(temp_of(pts[k]), pts) == clamp_percent(out_of(pts[k])),
{
    let s = sort_points(pts);
    lemma_sort_distinct(pts);
    assert(s.contains(pts[k]));
    let m = choose|m: int| 0 <= m < s.len() && s[m] == pts[k];
    let t = temp_of(s[m]);
    if m == 0 {
        assert(t <= temp_of(s[0]));
    } else if m == s.len() - 1 {
        assert(temp_of(s[0]) < t);
        assert(t >= temp_of(s.last()));
    } else {
        assert(temp_of(s[0]) < t);
        assert(t < temp_of(s.last()));
        assert forall|i: int|
            0 <= i < m implies !(temp_of(#[trigger] s[i]) <= t && t < temp_of(s[i + 1])) by {
            assert(temp_of(s[i + 1]) <= t);
        }
        assert(temp_of(s[m]) <= t && t < temp_of(s[m + 1]));
        lemma_eval_windows_first(t, s, m);
        lemma_interp_at_left(s[m], s[m + 1]);
    }
}

/// At any exact curve-point temperature the evaluator returns exactly
/// that point's output, regardless of the order the points arrive in —
/// provided temperatures are distinct and outputs are within range.
pub proof fn lemma_curve_point_exact(pts: Seq<(u32, u32)>, k: int)
    requires
        distinct_temps(pts),
        outputs_in_range(pts),
        0 <= k < pts.len(),
    ensures
        target_speed(temp_of(pts[k]), pts) == out_of(pts[k]),
{
    lemma_exact_point(pts, k);
}

/// Clamping to the covered range: at or below the minimum point's
/// temperature the evaluator returns the minimum point's output; at or
/// above the maximum point's, the maximum point's output.
pub proof fn lemma_clamp_to_range(pts: Seq<(u32, u32)>, k: int, t: int)
    requires
        distinct_temps(pts),
        outputs_in_range(pts),
        0 <= k < pts.len(),
    ensures
        (forall|i: int|
            0 <= i < pts.len() ==> temp_of(pts[k]) <= temp_of(#[trigger] pts[i])) && t <= temp_of(
            pts[k],
        ) ==> target_speed(t, pts) == out_of(pts[k]),
        (forall|i: int|
            0 <= i < pts.len() ==> temp_of(#[trigger] pts[i]) <= temp_of(pts[k])) && t >= temp_of(
            pts[k],
        ) ==> target_speed(t, pts) == out_of(pts[k]),
{
    let s = sort_points(pts);
    lemma_sort_distinct(pts);
    if (forall|i: int| 0 <= i < pts.len() ==> temp_of(pts[k]) <= temp_of(#[trigger] pts[i])) && t
        <= temp_of(pts[k]) {
        assert(s.contains(pts[k]));
        let m = choose|m: int| 0 <= m < s.len() && s[m] == pts[k];
        assert(pts.contains(s[0]));
        let a = choose|a: int| 0 <= a < pts.len() && pts[a] == s[0];
        assert(temp_of(pts[k]) <= temp_of(pts[a]));
        assert(temp_of(s[0]) <= temp_of(s[m]));
        assert(s[0] == pts[k]) by {
            if m != 0 {
                assert(temp_of(s[0]) < temp_of(s[m]));
            }
        }
        assert(t <= temp_of(s[0]));
        assert(eval_sorted(t, s) == clamp_percent(out_of(s[0])));
    }
    if (forall|i: int| 0 <= i < pts.len() ==> temp_of(#[trigger] pts[i]) <= temp_of(pts[k])) && t
        >= temp_of(pts[k]) {
        let last = s.len() - 1;
        assert(s.contains(pts[k]));
        let m = choose|m: int| 0 <= m < s.len() && s[m] == pts[k];
        assert(pts.contains(s[last]));
        let a = choose|a: int| 0 <= a < pts.len() && pts[a] == s[last];
        assert(temp_of(pts[a]) <= temp_of(pts[k]));
        assert(s[last] == pts[k]) by {
            if m != last {
                assert(temp_of(s[m]) < temp_of(s[last]));
            }
        }
        assert(t >= temp_of(s.last()));
        if s.len() == 1 {
            assert(eval_sorted(t, s) == clamp_percent(out_of(s[0])));
        } else {
            assert(temp_of(s[0]) < temp_of(s.last()));
            assert(eval_sorted(t, s) == clamp_percent(out_of(s.last())));
        }
    }
}

/// Inside a window with non-decreasing outputs, the interpolated value
/// stays between the two outputs.
proof fn lemma_interp_bounds(t: int, p1: (u32, u32), p2: (u32, u32))
    requires
        temp_of(p1) <= t < temp_of(p2),
        out_of(p1) <= out_of(p2),
    ensures
        out_of(p1) <= interp(t, p1, p2) <= out_of(p2),
{
    let dx = temp_of(p2) - temp_of(p1);
    let x = t - temp_of(p1);
    let dy = out_of(p2) - out_of(p1);
    lemma_mul_inequality(0, x, dy);
    lemma_div_pos_is_pos(x * dy, dx);
    lemma_mul_inequality(x, dx, dy);
    lemma_div_is_ordered(x * dy, dx * dy, dx);
    lemma_div_multiples_vanish(dy, dx);
}

/// Inside a window with non-decreasing outputs, interpolation is
/// monotone in the temperature.
proof fn lemma_interp_mono(t1: int, t2: int, p1: (u32, u32), p2: (u32, u32))
    requires
        temp_of(p1) <= t1 <= t2 < temp_of(p2),
        out_of(p1) <= out_of(p2),
    ensures
        interp(t1, p1, p2) <= interp(t2, p1, p2),
{
    let dx = temp_of(p2) - temp_of(p1);
    let dy = out_of(p2) - out_of(p1);
    lemma_mul_inequality(t1 - temp_of(p1), t2 - temp_of(p1), dy);
    lemma_div_is_ordered((t1 - temp_of(p1)) * dy, (t2 - temp_of(p1)) * dy, dx);
}

/// One unfolding step of evaluation strictly inside the covered range:
/// either the first window decides, or the first point can be dropped.
proof fn lemma_eval_step(t: int, s: Seq<(u32, u32)>)
    requires
        strictly_sorted(s),
        s.len() >= 2,
        temp_of(s[0]) < t,
        t < temp_of(s.last()),
    ensures
        eval_sorted(t, s) == (if t < temp_of(s[1]) {
            clamp_percent(interp(t, s[0], s[1]))
        } else {
            eval_sorted(t, s.drop_first())
        }),
{
    let d = s.drop_first();
    assert(forall|i: int| 0 <= i < d.len() ==> #[trigger] d[i] == s[i + 1]);
    assert(d.last() == s.last());
    if t < temp_of(s[1]) {
        assert(eval_windows(t, s) == clamp_percent(interp(t, s[0], s[1])));
    } else {
        assert(eval_windows(t, s) == eval_windows(t, d));
        if t == temp_of(s[1]) {
            // the point s[1] is hit exactly: both sides give its output
            assert(s[1] != s.last());
            assert(d.len() >= 2);
            assert(temp_of(d[0]) <= t && t < temp_of(d[1]));
            assert(eval_windows(t, d) == clamp_percent(interp(t, d[0], d[1])));
            lemma_interp_at_left(d[0], d[1]);
            assert(eval_sorted(t, d) == clamp_percent(out_of(d[0])));
        } else {
            assert(temp_of(d[0]) < t);
            assert(t < temp_of(d.last()));
            assert(eval_sorted(t, d) == eval_windows(t, d));
        }
    }
}

/// Evaluation of a strictly sorted, monotone, in-range curve always lies
/// between the first and the last output.
proof fn lemma_eval_bounds(t: int, s: Seq<(u32, u32)>)
    requires
        strictly_sorted(s),
        outputs_nondecreasing(s),
        forall|i: int| 0 <= i < s.len() ==> out_of(#[trigger] s[i]) <= 100,
        s.len() >= 1,
    ensures
        out_of(s[0]) <= eval_sorted(t, s) <= out_of(s.last()),
    decreases s.len(),
{
    assert(out_of(s[0]) <= out_of(s.last()));
    if t <= temp_of(s[0]) {
        assert(eval_sorted(t, s) == clamp_percent(out_of(s[0])));
    } else if t >= temp_of(s.last()) {
        assert(eval_sorted(t, s) == clamp_percent(out_of(s.last())));
    } else {
        assert(s.len() >= 2);
        let d = s.drop_first();
        assert(forall|i: int| 0 <= i < d.len() ==> #[trigger] d[i] == s[i + 1]);
        lemma_eval_step(t, s);
        if t < temp_of(s[1]) {
            lemma_interp_bounds(t, s[0], s[1]);
        } else {
            lemma_eval_bounds(t, d);
        }
    }
}

/// Forward direction of the monotonicity law, on the sorted sequence.
proof fn lemma_eval_mono(t1: int, t2: int, s: Seq<(u32, u32)>)
    requires
        strictly_sorted(s),
        outputs_nondecreasing(s),
        forall|i: int| 0 <= i < s.len() ==> out_of(#[trigger] s[i]) <= 100,
        t1 <= t2,
    ensures
        eval_sorted(t1, s) <= eval_sorted(t2, s),
    decreases s.len(),
{
    if s.len() == 0 {
    } else if s.len() == 1 {
        assert(eval_sorted(t1, s) == clamp_percent(out_of(s[0])));
        assert(eval_sorted(t2, s) == clamp_percent(out_of(s[0])));
    } else if t1 <= temp_of(s[0]) {
        assert(eval_sorted(t1, s) == clamp_percent(out_of(s[0])));
        lemma_eval_bounds(t2, s);
    } else if t2 >= temp_of(s.last()) {
        assert(eval_sorted(t2, s) == clamp_percent(out_of(s.last())));
        lemma_eval_bounds(t1, s);
    } else {
        // both strictly inside the covered range
        let d = s.drop_first();
        assert(forall|i: int| 0 <= i < d.len() ==> #[trigger] d[i] == s[i + 1]);
        lemma_eval_step(t1, s);
        lemma_eval_step(t2, s);
        if t2 < temp_of(s[1]) {
            lemma_interp_mono(t1, t2, s[0], s[1]);
        } else if t1 >= temp_of(s[1]) {
            lemma_eval_mono(t1, t2, d);
        } else {
            // t1 in the first window, t2 beyond it
            lemma_interp_bounds(t1, s[0], s[1]);
            lemma_eval_bounds(t2, d);
            assert(eval_sorted(t1, s) <= out_of(s[1]));
        }
    }
}

/// Monotonicity: with pairwise-distinct temperatures and in-range
/// outputs, evaluation is monotone non-decreasing in the temperature if
/// and only if the curve's outputs are non-decreasing in temperature —
/// interpolation introduces no local extrema beyond the input points.
pub proof fn lemma_monotone_iff(pts: Seq<(u32, u32)>)
    requires
        distinct_temps(pts),
        outputs_in_range(pts),
    ensures
        eval_monotone(pts) <==> curve_monotone(pts),
{
    let s = sort_points(pts);
    lemma_sort_distinct(pts);
    if curve_monotone(pts) {
        assert(outputs_nondecreasing(s)) by {
            assert forall|i: int, j: int| 0 <= i <= j < s.len() implies out_of(#[trigger] s[i])
                <= out_of(#[trigger] s[j]) by {
                assert(pts.contains(s[i]));
                assert(pts.contains(s[j]));
                let a = choose|a: int| 0 <= a < pts.len() && pts[a] == s[i];
                let b = choose|b: int| 0 <= b < pts.len() && pts[b] == s[j];
                assert(temp_of(pts[a]) <= temp_of(pts[b]));
            }
        }
        assert(forall|i: int| 0 <= i < s.len() ==> out_of(#[trigger] s[i]) <= 100) by {
            assert forall|i: int| 0 <= i < s.len() implies out_of(#[trigger] s[i]) <= 100 by {
                assert(pts.contains(s[i]));
                let a = choose|a: int| 0 <= a < pts.len() && pts[a] == s[i];
                assert(out_of(pts[a]) <= 100);
            }
        }
        assert forall|t1: int, t2: int| t1 <= t2 implies #[trigger] target_speed(t1, pts)
            <= #[trigger] target_speed(t2, pts) by {
            lemma_eval_mono(t1, t2, s);
        }
    }
    if eval_monotone(pts) {
        assert forall|i: int, j: int|
            0 <= i < pts.len() && 0 <= j < pts.len() && temp_of(#[trigger] pts[i]) <= temp_of(
                #[trigger] pts[j],
            ) implies out_of(pts[i]) <= out_of(pts[j]) by {
            if i != j {
                lemma_curve_point_exact(pts, i);
                lemma_curve_point_exact(pts, j);
                assert(target_speed(temp_of(pts[i]), pts) <= target_speed(temp_of(pts[j]), pts));
            }
        }
    }
}

/// The result is always within `[0, 100]`, whatever the curve holds.
pub proof fn lemma_speed_in_range(t: int, pts: Seq<(u32, u32)>)
    ensures
        0 <= target_speed(t, pts) <= 100,
{
    let s = sort_points(pts);
    lemma_eval_windows_in_range(t, s);
}

proof fn lemma_eval_windows_in_range(t: int, s: Seq<(u32, u32)>)
    ensures
        0 <= eval_windows(t, s) <= 100,
        0 <= eval_sorted(t, s) <= 100,
    decreases s.len(),
{
    if s.len() < 2 {
    } else if temp_of(s[0]) <= t && t < temp_of(s[1]) {
    } else {
        lemma_eval_windows_in_range(t, s.drop_first());
    }
}

/// An empty curve evaluates to 0 at every temperature.
pub proof fn lemma_empty_curve(t: int)
    ensures
        target_speed(t, Seq::<(u32, u32)>::empty()) == 0,
{
    assert(sort_points(Seq::<(u32, u32)>::empty()).len() == 0);
}

} // verus!
