//! Piecewise-linear fan-curve evaluation.
//!
//! A curve is a list of `(temperature, output-percent)` points, in any
//! order. Evaluation stable-sorts the points by temperature, clamps the
//! temperature to the covered range, and linearly interpolates inside it;
//! every result is clamped to `[0, 100]`.

use vstd::prelude::*;
use vstd::arithmetic::div_mod::{
    lemma_div_is_ordered, lemma_div_multiples_vanish, lemma_div_pos_is_pos,
};
use vstd::arithmetic::mul::lemma_mul_inequality;

verus! {

/// Temperature coordinate of a curve point, as a mathematical integer.
pub open spec fn temp_of(p: (u32, u32)) -> int {
    p.0 as int
}

/// Output coordinate of a curve point, as a mathematical integer.
pub open spec fn out_of(p: (u32, u32)) -> int {
    p.1 as int
}

/// Clamp a value into the percentage range `[0, 100]`.
pub open spec fn clamp_percent(x: int) -> int {
    if x < 0 {
        0
    } else if x > 100 {
        100
    } else {
        x
    }
}

/// The points are ordered by non-decreasing temperature.
pub open spec fn sorted_by_temp(s: Seq<(u32, u32)>) -> bool {
    forall|i: int, j: int|
        0 <= i < j < s.len() ==> temp_of(#[trigger] s[i]) <= temp_of(#[trigger] s[j])
}

/// Insert `p` into the sorted sequence `s`, after every point whose
/// temperature is less than or equal to `p`'s (so an insertion of each
/// element in turn is a stable sort).
pub open spec fn insert_by_temp(p: (u32, u32), s: Seq<(u32, u32)>) -> Seq<(u32, u32)>
    decreases s.len(),
{
    if s.len() == 0 {
        seq![p]
    } else if temp_of(s[0]) <= temp_of(p) {
        seq![s[0]] + insert_by_temp(p, s.drop_first())
    } else {
        seq![p] + s
    }
}

/// Stable sort of the points by temperature: each point is inserted,
/// left to right, after the already-placed points of equal temperature.
pub open spec fn sort_points(s: Seq<(u32, u32)>) -> Seq<(u32, u32)>
    decreases s.len(),
{
    if s.len() == 0 {
        s
    } else {
        insert_by_temp(s.last(), sort_points(s.drop_last()))
    }
}

proof fn lemma_insert_by_temp_ensures(p: (u32, u32), s: Seq<(u32, u32)>)
    requires
        sorted_by_temp(s),
    ensures
        insert_by_temp(p, s).len() == s.len() + 1,
        sorted_by_temp(insert_by_temp(p, s)),
        insert_by_temp(p, s).to_multiset() == s.to_multiset().insert(p),
    decreases s.len(),
{
    broadcast use vstd::seq_lib::group_to_multiset_ensures;

    let r = insert_by_temp(p, s);
    if s.len() == 0 {
        assert(r =~= Seq::empty().push(p));
        assert(r.to_multiset() =~= s.to_multiset().insert(p));
    } else if temp_of(s[0]) <= temp_of(p) {
        let tail = s.drop_first();
        assert(sorted_by_temp(tail)) by {
            assert(forall|i: int, j: int|
                0 <= i < j < tail.len() ==> #[trigger] tail[i] == s[i + 1] && #[trigger] tail[j]
                    == s[j + 1]);
        }
        lemma_insert_by_temp_ensures(p, tail);
        let rt = insert_by_temp(p, tail);
        assert(r == seq![s[0]] + rt);
        // order: s[0] precedes everything in rt
        assert(sorted_by_temp(r)) by {
            assert forall|i: int, j: int| 0 <= i < j < r.len() implies temp_of(#[trigger] r[i])
                <= temp_of(#[trigger] r[j]) by {
                if i == 0 {
                    // r[j] is either p or some element of tail
                    assert(rt.to_multiset().contains(r[j]));
                    assert(rt.contains(r[j]));
                    let k = choose|k: int| 0 <= k < rt.len() && rt[k] == r[j];
                    if rt[k] == p {
                        assert(temp_of(s[0]) <= temp_of(p));
                    } else {
                        assert(rt.to_multiset().count(rt[k]) > 0);
                        if tail.contains(rt[k]) {
                            let m = choose|m: int| 0 <= m < tail.len() && tail[m] == rt[k];
                            assert(tail[m] == s[m + 1]);
                            assert(temp_of(s[0]) <= temp_of(s[m + 1]));
                        } else {
                            assert(tail.to_multiset().count(rt[k]) == 0);
                            assert(rt.to_multiset() == tail.to_multiset().insert(p));
                            assert(rt[k] == p);
                        }
                    }
                } else {
                    assert(r[i] == rt[i - 1]);
                    assert(r[j] == rt[j - 1]);
                }
            }
        }
        // multiset: r = s[0] prepended to rt
        assert(r.to_multiset() =~= s.to_multiset().insert(p)) by {
            assert(r =~= seq![s[0]] + rt);
            vstd::seq_lib::lemma_multiset_commutative(seq![s[0]], rt);
            assert(seq![s[0]].to_multiset() =~= Seq::empty().push(s[0]).to_multiset());
            assert(s =~= seq![s[0]] + tail);
            vstd::seq_lib::lemma_multiset_commutative(seq![s[0]], tail);
        }
    } else {
        assert(r == seq![p] + s);
        assert(sorted_by_temp(r)) by {
            assert forall|i: int, j: int| 0 <= i < j < r.len() implies temp_of(#[trigger] r[i])
                <= temp_of(#[trigger] r[j]) by {
                if i == 0 {
                    assert(r[j] == s[j - 1]);
                    if j - 1 > 0 {
                        assert(temp_of(s[0]) <= temp_of(s[j - 1]));
                    }
                } else {
                    assert(r[i] == s[i - 1]);
                    assert(r[j] == s[j - 1]);
                }
            }
        }
        assert(r.to_multiset() =~= s.to_multiset().insert(p)) by {
            vstd::seq_lib::lemma_multiset_commutative(seq![p], s);
            assert(seq![p].to_multiset() =~= Seq::empty().push(p).to_multiset());
        }
    }
}

/// The stable sort keeps the length and the points, and orders them.
pub proof fn lemma_sort_points_ensures(s: Seq<(u32, u32)>)
    ensures
        sort_points(s).len() == s.len(),
        sorted_by_temp(sort_points(s)),
        sort_points(s).to_multiset() == s.to_multiset(),
    decreases s.len(),
{
    broadcast use vstd::seq_lib::group_to_multiset_ensures;

    if s.len() == 0 {
    } else {
        let init = s.drop_last();
        lemma_sort_points_ensures(init);
        lemma_insert_by_temp_ensures(s.last(), sort_points(init));
        assert(s =~= init.push(s.last()));
        assert(init.push(s.last()).to_multiset() == init.to_multiset().insert(s.last()));
    }
}

/// A sorted sequence contains the same points as the original.
pub proof fn lemma_sort_points_contains(s: Seq<(u32, u32)>, p: (u32, u32))
    ensures
        sort_points(s).contains(p) <==> s.contains(p),
{
    broadcast use vstd::seq_lib::group_to_multiset_ensures;

    lemma_sort_points_ensures(s);
    if sort_points(s).contains(p) {
        assert(sort_points(s).to_multiset().count(p) > 0);
        assert(s.to_multiset().count(p) > 0);
    }
    if s.contains(p) {
        assert(s.to_multiset().count(p) > 0);
        assert(sort_points(s).to_multiset().count(p) > 0);
    }
}

proof fn lemma_insert_by_temp_at(p: (u32, u32), s: Seq<(u32, u32)>, j: int)
    requires
        sorted_by_temp(s),
        0 <= j <= s.len(),
        forall|k: int| 0 <= k < j ==> temp_of(#[trigger] s[k]) <= temp_of(p),
        j < s.len() ==> temp_of(s[j]) > temp_of(p),
    ensures
        insert_by_temp(p, s) == s.insert(j, p),
    decreases s.len(),
{
    if s.len() == 0 {
        assert(insert_by_temp(p, s) =~= s.insert(0, p));
    } else if j == 0 {
        assert(temp_of(s[0]) > temp_of(p));
        assert(seq![p] + s =~= s.insert(0, p));
    } else {
        let tail = s.drop_first();
        assert(sorted_by_temp(tail)) by {
            assert(forall|i: int, k: int|
                0 <= i < k < tail.len() ==> #[trigger] tail[i] == s[i + 1] && #[trigger] tail[k]
                    == s[k + 1]);
        }
        assert(forall|k: int| 0 <= k < j - 1 ==> temp_of(#[trigger] tail[k]) <= temp_of(p))
            by {
            assert(forall|k: int| 0 <= k < j - 1 ==> #[trigger] tail[k] == s[k + 1]);
        }
        lemma_insert_by_temp_at(p, tail, j - 1);
        assert(temp_of(s[0]) <= temp_of(p));
        assert(seq![s[0]] + tail.insert(j - 1, p) =~= s.insert(j, p));
    }
}

/// Executable stable sort of the points by temperature.
fn sort_points_exec(pts: &[(u32, u32)]) -> (r: Vec<(u32, u32)>)
    ensures
        r@ == sort_points(pts@),
{
    let mut r: Vec<(u32, u32)> = Vec::new();
    let mut i: usize = 0;
    proof {
        assert(pts@.take(0) =~= Seq::<(u32, u32)>::empty());
    }
    while i < pts.len()
        invariant
            i <= pts.len(),
            r@ == sort_points(pts@.take(i as int)),
        decreases pts.len() - i,
    {
        let p = pts[i];
        proof {
            lemma_sort_points_ensures(pts@.take(i as int));
        }
        let mut j: usize = 0;
        while j < r.len() && r[j].0 <= p.0
            invariant
                j <= r.len(),
                r@ == sort_points(pts@.take(i as int)),
                sorted_by_temp(r@),
                forall|k: int| 0 <= k < j ==> temp_of(#[trigger] r@[k]) <= temp_of(p),
            decreases r.len() - j,
    {
            j += 1;
        }
        proof {
            lemma_insert_by_temp_at(p, r@, j as int);
            assert(pts@.take(i + 1).drop_last() =~= pts@.take(i as int));
            assert(pts@.take(i + 1).last() == pts@[i as int]);
        }
        r.insert(j, p);
        i += 1;
    }
    proof {
        assert(pts@.take(pts@.len() as int) =~= pts@);
    }
    r
}

/// Linear interpolation between the points `p1` and `p2` at temperature
/// `t`, with the quotient truncated toward zero as integer division does.
pub open spec fn interp(t: int, p1: (u32, u32), p2: (u32, u32)) -> int {
    let dx = temp_of(p2) - temp_of(p1);
    let x = t - temp_of(p1);
    if out_of(p2) >= out_of(p1) {
        out_of(p1) + (x * (out_of(p2) - out_of(p1))) / dx
    } else {
        out_of(p1) - (x * (out_of(p1) - out_of(p2))) / dx
    }
}

/// Result of the window search: the first adjacent pair `(s[i], s[i+1])`
/// with `s[i].temperature <= t < s[i+1].temperature` decides the output;
/// if no pair qualifies, the defensive fallback is 0.
pub open spec fn eval_windows(t: int, s: Seq<(u32, u32)>) -> int
    decreases s.len(),
{
    if s.len() < 2 {
        0
    } else if temp_of(s[0]) <= t && t < temp_of(s[1]) {
        clamp_percent(interp(t, s[0], s[1]))
    } else {
        eval_windows(t, s.drop_first())
    }
}

/// Evaluation of a temperature against an already-sorted curve: clamp to
/// the covered temperature range, otherwise interpolate in the first
/// qualifying window. Every result is clamped to `[0, 100]`.
pub open spec fn eval_sorted(t: int, s: Seq<(u32, u32)>) -> int {
    if s.len() == 0 {
        0
    } else if t <= temp_of(s[0]) {
        clamp_percent(out_of(s[0]))
    } else if t >= temp_of(s.last()) {
        clamp_percent(out_of(s.last()))
    } else {
        eval_windows(t, s)
    }
}

/// What `calculate_target_speed` returns: the curve is stable-sorted by
/// temperature, then evaluated at `t`.
pub open spec fn target_speed(t: int, pts: Seq<(u32, u32)>) -> int {
    eval_sorted(t, sort_points(pts))
}

/// Clamp an output percentage to at most 100 (u32 values are never
/// negative).
fn clamp_output(o: u32) -> (r: u32)
    ensures
        r as int == clamp_percent(o as int),
{
    if o > 100 {
        100
    } else {
        o
    }
}

/// Derive the target fan speed for the current temperature from the
/// given curve points, which may arrive in any order. The result is a
/// percentage in `[0, 100]`; an empty curve always yields 0.
pub fn calculate_target_speed(current_temp: u32, curve: &[(u32, u32)]) -> (speed: u32)
    ensures
        speed as int == target_speed(current_temp as int, curve@),
        0 <= speed <= 100,
        curve@.len() == 0 ==> speed == 0,
{
    if curve.len() == 0 {
        return 0;
    }
    let t = current_temp;
    let sorted = sort_points_exec(curve);
    proof {
        lemma_sort_points_ensures(curve@);
    }
    if t <= sorted[0].0 {
        return clamp_output(sorted[0].1);
    }
    if t >= sorted[sorted.len() - 1].0 {
        proof {
            assert(sorted@.last() == sorted@[sorted@.len() - 1]);
        }
        return clamp_output(sorted[sorted.len() - 1].1);
    }
    let ghost s = sorted@;
    let mut i: usize = 0;
    proof {
        assert(s.skip(0) =~= s);
    }
    while i + 1 < sorted.len()
        invariant
            sorted@ == s,
            s == sort_points(curve@),
            s.len() == curve@.len(),
            curve@.len() > 0,
            sorted_by_temp(s),
            t == current_temp,
            temp_of(s[0]) < t as int,
            (t as int) < temp_of(s.last()),
            i + 1 <= s.len(),
            eval_windows(t as int, s) == eval_windows(t as int, s.skip(i as int)),
        decreases sorted.len() - i,
    {
        let p1 = sorted[i];
        let p2 = sorted[i + 1];
        proof {
            assert(s.skip(i as int)[0] == s[i as int]);
            assert(s.skip(i as int)[1] == s[i as int + 1]);
        }
        if p1.0 <= t && t < p2.0 {
            let x = (t - p1.0) as u64;
            let dx = (p2.0 - p1.0) as u64;
            let val: u64 = if p2.1 >= p1.1 {
                let dy = (p2.1 - p1.1) as u64;
                proof {
                    lemma_mul_inequality(x as int, u32::MAX as int, dy as int);
                    lemma_mul_inequality(dy as int, u32::MAX as int, u32::MAX as int);
                }
                let q = x * dy / dx;
                proof {
                    lemma_div_pos_is_pos((x * dy) as int, dx as int);
                    vstd::arithmetic::div_mod::lemma_div_nonincreasing((x * dy) as int,
                        dx as int);
                }
                p1.1 as u64 + q
            } else {
                let dy = (p1.1 - p2.1) as u64;
                proof {
                    lemma_mul_inequality(x as int, u32::MAX as int, dy as int);
                    lemma_mul_inequality(dy as int, u32::MAX as int, u32::MAX as int);
                }
                let q = x * dy / dx;
                proof {
                    lemma_div_pos_is_pos((x * dy) as int, dx as int);
                }
                if q >= p1.1 as u64 {
                    0
                } else {
                    p1.1 as u64 - q
                }
            };
            let speed: u32 = if val > 100 {
                100
            } else {
                val as u32
            };
            proof {
                assert(eval_windows(t as int, s.skip(i as int)) == clamp_percent(interp(t as int,
                    s[i as int], s[i as int + 1])));
                assert(speed as int == clamp_percent(interp(t as int, p1, p2)));
            }
            return speed;
        }
        proof {
            assert(s.skip(i as int).drop_first() =~= s.skip(i as int + 1));
        }
        i += 1;
    }
    proof {
        assert(s.skip(i as int).len() < 2);
    }
    0
}

} // verus!
