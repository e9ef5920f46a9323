//! Recursive polyline simplification (Douglas-Peucker) on the raw
//! coordinate plane.
//!
//! The perpendicular distance from a point to the infinite line through a
//! chord is `|cross| / |chord|`, so `distance > eps` is the same as
//! `cross^2 > eps^2 * |chord|^2`; comparing those squares keeps the whole
//! computation in integers, exact, and free of any division — in
//! particular a zero-length chord, where every cross product is zero, needs
//! no special case and simply keeps the two endpoints.

use vstd::prelude::*;

use crate::point::FlightPoint;
use crate::point::wf_trace;

verus! {

/// Cross product of the chord `a -> b` with `a -> p`: twice the signed area
/// of the triangle, the numerator of the perpendicular distance from `p` to
/// the line through `a` and `b`.
pub open spec fn cross_of(p: FlightPoint, a: FlightPoint, b: FlightPoint) -> int {
    (b.lat - a.lat) * (p.long - a.long) - (b.long - a.long) * (p.lat - a.lat)
}

/// Squared cross product.
pub open spec fn cross_sq(p: FlightPoint, a: FlightPoint, b: FlightPoint) -> int {
    cross_of(p, a, b) * cross_of(p, a, b)
}

/// Squared length of the chord `a -> b`.
pub open spec fn chord_sq(a: FlightPoint, b: FlightPoint) -> int {
    (b.lat - a.lat) * (b.lat - a.lat) + (b.long - a.long) * (b.long - a.long)
}

/// The perpendicular distance from `p` to the infinite line through `a` and
/// `b` is within `eps`, stated over squares. A degenerate chord puts every
/// point within every tolerance.
pub open spec fn within_tol(p: FlightPoint, a: FlightPoint, b: FlightPoint, eps: int) -> bool {
    cross_sq(p, a, b) <= eps * eps * chord_sq(a, b)
}

/// The scan for the most distant interior point: considering indices
/// `1 .. n` against the chord from the first to the last point, the largest
/// squared cross product and the first index reaching it; `(0, 0)` where
/// nothing beats zero.
pub open spec fn peak(s: Seq<FlightPoint>, n: int) -> (int, int)
    decreases n,
{
    if n <= 1 {
        (0, 0)
    } else {
        let prev = peak(s, n - 1);
        if cross_sq(s[n - 1], s[0], s.last()) > prev.0 {
            (cross_sq(s[n - 1], s[0], s.last()), n - 1)
        } else {
            prev
        }
    }
}

/// The simplified form of a sequence at tolerance `eps`: fewer than three
/// points stay as they are; otherwise, if the farthest interior point lies
/// beyond the tolerance the sequence splits there and both halves recurse,
/// the split point opening the right half; otherwise only the two endpoints
/// remain.
pub open spec fn dp(s: Seq<FlightPoint>, eps: int) -> Seq<FlightPoint>
    decreases s.len(),
{
    if s.len() < 3 {
        s
    } else {
        let m = peak(s, s.len() as int);
        if m.0 > eps * eps * chord_sq(s[0], s.last()) && 1 <= m.1 < s.len() {
            dp(s.take(m.1), eps) + dp(s.skip(m.1), eps)
        } else {
            seq![s[0], s.last()]
        }
    }
}

/// What the scan guarantees: the result is the strict first maximum of the
/// squared cross products over the interior indices, and zero with index
/// zero where every product is zero.
pub proof fn lemma_peak_props(s: Seq<FlightPoint>, n: int)
    requires
        1 <= n <= s.len(),
    ensures
        0 <= peak(s, n).1 < n,
        peak(s, n).0 >= 0,
        peak(s, n).1 == 0 ==> peak(s, n).0 == 0,
        peak(s, n).1 != 0 ==> cross_sq(s[peak(s, n).1], s[0], s.last()) == peak(s, n).0,
        forall|k: int| 1 <= k < n ==> cross_sq(s[k], s[0], s.last()) <= peak(s, n).0,
        forall|k: int| 1 <= k < peak(s, n).1 ==> cross_sq(s[k], s[0], s.last()) < peak(s, n).0,
    decreases n,
{
    if n > 1 {
        lemma_peak_props(s, n - 1);
    }
}

/// Squares are never negative.
proof fn lemma_sq_nonneg(x: int)
    by (nonlinear_arith)
    ensures
        x * x >= 0,
{
}

/// Squared chord lengths are never negative.
proof fn lemma_chord_sq_nonneg(a: FlightPoint, b: FlightPoint)
    ensures
        chord_sq(a, b) >= 0,
{
    lemma_sq_nonneg(b.lat - a.lat);
    lemma_sq_nonneg(b.long - a.long);
}

/// The squared tolerance bound is never negative.
proof fn lemma_tol_nonneg(eps: int, a: FlightPoint, b: FlightPoint)
    ensures
        eps * eps * chord_sq(a, b) >= 0,
{
    lemma_chord_sq_nonneg(a, b);
    assert(eps * eps * chord_sq(a, b) >= 0) by (nonlinear_arith)
        requires
            chord_sq(a, b) >= 0,
    ;
}

/// A larger tolerance has a larger squared bound against the same chord.
proof fn lemma_tol_monotone(e1: int, e2: int, a: FlightPoint, b: FlightPoint)
    requires
        0 <= e1 <= e2,
    ensures
        e1 * e1 * chord_sq(a, b) <= e2 * e2 * chord_sq(a, b),
{
    lemma_chord_sq_nonneg(a, b);
    assert(e1 * e1 * chord_sq(a, b) <= e2 * e2 * chord_sq(a, b)) by (nonlinear_arith)
        requires
            chord_sq(a, b) >= 0,
            0 <= e1 <= e2,
    ;
}

/// The chord's own endpoints have a zero cross product against it.
proof fn lemma_cross_endpoints(a: FlightPoint, b: FlightPoint)
    ensures
        cross_sq(a, a, b) == 0,
        cross_sq(b, a, b) == 0,
{
    assert(cross_of(a, a, b) == 0) by (nonlinear_arith);
    assert(cross_of(b, a, b) == 0) by (nonlinear_arith);
    assert(cross_sq(a, a, b) == 0) by (nonlinear_arith)
        requires
            cross_of(a, a, b) == 0,
    ;
    assert(cross_sq(b, a, b) == 0) by (nonlinear_arith)
        requires
            cross_of(b, a, b) == 0,
    ;
}

/// Every sample of the simplified sequence is a sample of the input.
pub proof fn lemma_dp_elements(s: Seq<FlightPoint>, eps: int)
    ensures
        forall|j: int|
            0 <= j < dp(s, eps).len() ==> exists|k: int|
                0 <= k < s.len() && s[k] == #[trigger] dp(s, eps)[j],
    decreases s.len(),
{
    let r = dp(s, eps);
    if s.len() < 3 {
        assert forall|j: int| 0 <= j < r.len() implies exists|k: int|
            0 <= k < s.len() && s[k] == #[trigger] r[j] by {
            assert(s[j] == r[j]);
        }
    } else {
        let m = peak(s, s.len() as int);
        if m.0 > eps * eps * chord_sq(s[0], s.last()) && 1 <= m.1 < s.len() {
            let left = s.take(m.1);
            let right = s.skip(m.1);
            lemma_dp_elements(left, eps);
            lemma_dp_elements(right, eps);
            let la = dp(left, eps);
            assert forall|j: int| 0 <= j < r.len() implies exists|k: int|
                0 <= k < s.len() && s[k] == #[trigger] r[j] by {
                if j < la.len() {
                    let k = choose|k: int| 0 <= k < left.len() && left[k] == la[j];
                    assert(s[k] == r[j]);
                } else {
                    let jj = j - la.len();
                    let rb = dp(right, eps);
                    assert(rb[jj] == r[j]);
                    let k = choose|k: int| 0 <= k < right.len() && right[k] == rb[jj];
                    assert(s[m.1 + k] == r[j]);
                }
            }
        } else {
            assert(s[0] == r[0] && s.last() == r[1]);
            assert forall|j: int| 0 <= j < r.len() implies exists|k: int|
                0 <= k < s.len() && s[k] == #[trigger] r[j] by {
                if j == 0 {
                    assert(s[0] == r[j]);
                } else {
                    assert(s[s.len() - 1] == r[j]);
                }
            }
        }
    }
}

/// The simplified sequence keeps the endpoints, never grows, and never
/// shrinks below the two endpoints.
pub proof fn lemma_dp_endpoints(s: Seq<FlightPoint>, eps: int)
    requires
        s.len() >= 1,
    ensures
        dp(s, eps).len() >= if s.len() >= 2 {
            2int
        } else {
            1int
        },
        dp(s, eps).len() <= s.len(),
        dp(s, eps)[0] == s[0],
        dp(s, eps).last() == s.last(),
    decreases s.len(),
{
    if s.len() < 3 {
    } else {
        let m = peak(s, s.len() as int);
        if m.0 > eps * eps * chord_sq(s[0], s.last()) && 1 <= m.1 < s.len() {
            lemma_dp_endpoints(s.take(m.1), eps);
            lemma_dp_endpoints(s.skip(m.1), eps);
        }
    }
}

/// In the splitting branch the split index is a proper interior index: the
/// peak value is positive, and the last point's cross product is zero.
proof fn lemma_split_interior(s: Seq<FlightPoint>, eps: int)
    requires
        s.len() >= 3,
        peak(s, s.len() as int).0 > eps * eps * chord_sq(s[0], s.last()),
    ensures
        1 <= peak(s, s.len() as int).1 <= s.len() - 2,
        cross_sq(s[peak(s, s.len() as int).1], s[0], s.last()) == peak(s, s.len() as int).0,
{
    let m = peak(s, s.len() as int);
    lemma_peak_props(s, s.len() as int);
    lemma_tol_nonneg(eps, s[0], s.last());
    lemma_cross_endpoints(s[0], s.last());
    assert(m.1 != 0);
    assert(m.1 != s.len() - 1);
}

/// The point `p` is within tolerance of the segment of `r` starting at `j`.
pub open spec fn seg_within(r: Seq<FlightPoint>, j: int, p: FlightPoint, eps: int) -> bool {
    within_tol(p, r[j], r[j + 1], eps)
}

/// A point is within tolerance of some segment of the polyline `r`.
pub open spec fn point_covered(p: FlightPoint, r: Seq<FlightPoint>, eps: int) -> bool {
    exists|j: int| 0 <= j < r.len() - 1 && #[trigger] seg_within(r, j, p, eps)
}

/// Containment: every sample of the input lies within the tolerance of
/// some segment of the simplified polyline.
pub proof fn lemma_dp_containment(s: Seq<FlightPoint>, eps: int)
    requires
        s.len() >= 2,
    ensures
        forall|k: int| 0 <= k < s.len() ==> point_covered(#[trigger] s[k], dp(s, eps), eps),
    decreases s.len(),
{
    let r = dp(s, eps);
    if s.len() < 3 {
        lemma_tol_nonneg(eps, s[0], s[1]);
        lemma_cross_endpoints(s[0], s[1]);
        assert forall|k: int| 0 <= k < s.len() implies point_covered(
            #[trigger] s[k],
            r,
            eps,
        ) by {
            assert(seg_within(r, 0, s[k], eps));
        }
    } else {
        let m = peak(s, s.len() as int);
        lemma_peak_props(s, s.len() as int);
        if m.0 > eps * eps * chord_sq(s[0], s.last()) && 1 <= m.1 < s.len() {
            lemma_split_interior(s, eps);
            let left = s.take(m.1);
            let right = s.skip(m.1);
            let la = dp(left, eps);
            let rb = dp(right, eps);
            lemma_dp_endpoints(left, eps);
            lemma_dp_endpoints(right, eps);
            lemma_dp_containment(right, eps);
            if m.1 >= 2 {
                lemma_dp_containment(left, eps);
            }
            assert forall|k: int| 0 <= k < s.len() implies point_covered(
                #[trigger] s[k],
                r,
                eps,
            ) by {
                if k < m.1 {
                    if m.1 == 1 {
                        lemma_tol_nonneg(eps, r[0], r[1]);
                        lemma_cross_endpoints(r[0], r[1]);
                        assert(r[0] == s[0]);
                        assert(seg_within(r, 0, s[k], eps));
                    } else {
                        assert(point_covered(left[k], la, eps));
                        let j = choose|j: int|
                            0 <= j < la.len() - 1 && #[trigger] seg_within(la, j, left[k], eps);
                        assert(r[j] == la[j] && r[j + 1] == la[j + 1]);
                        assert(seg_within(r, j, s[k], eps));
                    }
                } else {
                    assert(point_covered(right[k - m.1], rb, eps));
                    let j = choose|j: int|
                        0 <= j < rb.len() - 1 && #[trigger] seg_within(rb, j, right[k - m.1], eps);
                    assert(r[la.len() + j] == rb[j] && r[la.len() + j + 1] == rb[j + 1]);
                    assert(seg_within(r, la.len() + j, s[k], eps));
                }
            }
        } else {
            lemma_tol_nonneg(eps, s[0], s.last());
            lemma_cross_endpoints(s[0], s.last());
            assert forall|k: int| 0 <= k < s.len() implies point_covered(
                #[trigger] s[k],
                r,
                eps,
            ) by {
                assert(cross_sq(s[k], s[0], s.last()) <= eps * eps * chord_sq(s[0], s.last()));
                assert(seg_within(r, 0, s[k], eps));
            }
        }
    }
}

/// Monotonicity: a larger tolerance never keeps more points.
pub proof fn lemma_dp_monotone(s: Seq<FlightPoint>, e1: int, e2: int)
    requires
        0 <= e1 <= e2,
    ensures
        dp(s, e2).len() <= dp(s, e1).len(),
    decreases s.len(),
{
    if s.len() >= 3 {
        let m = peak(s, s.len() as int);
        lemma_peak_props(s, s.len() as int);
        lemma_tol_monotone(e1, e2, s[0], s.last());
        if m.0 > e2 * e2 * chord_sq(s[0], s.last()) && 1 <= m.1 < s.len() {
            lemma_dp_monotone(s.take(m.1), e1, e2);
            lemma_dp_monotone(s.skip(m.1), e1, e2);
        } else if m.0 > e1 * e1 * chord_sq(s[0], s.last()) && 1 <= m.1 < s.len() {
            lemma_dp_endpoints(s, e1);
        }
    }
}

/// The scan selects position `pos` when everything before it is strictly
/// below `d`, position `pos` reaches `d`, and nothing after exceeds it.
proof fn lemma_peak_profile(r: Seq<FlightPoint>, pos: int, d: int, n: int)
    requires
        1 <= pos < r.len(),
        n <= r.len(),
        d > 0,
        cross_sq(r[pos], r[0], r.last()) == d,
        forall|k: int| 1 <= k < pos ==> cross_sq(#[trigger] r[k], r[0], r.last()) < d,
        forall|k: int| pos < k < r.len() ==> cross_sq(#[trigger] r[k], r[0], r.last()) <= d,
    ensures
        n <= pos ==> peak(r, n).0 < d,
        n > pos ==> peak(r, n) == (d, pos),
    decreases n,
{
    if n > 1 {
        lemma_peak_profile(r, pos, d, n - 1);
    }
}

/// Idempotence: simplifying an already-simplified sequence with the same
/// tolerance changes nothing.
#[verifier::rlimit(50)]
pub proof fn lemma_dp_idempotent(s: Seq<FlightPoint>, eps: int)
    ensures
        dp(dp(s, eps), eps) == dp(s, eps),
    decreases s.len(),
{
    let r = dp(s, eps);
    if s.len() < 3 {
        // the result is the input itself, or its two endpoints, and
        // sequences shorter than three points simplify to themselves
    } else {
        let m = peak(s, s.len() as int);
        lemma_peak_props(s, s.len() as int);
        if m.0 > eps * eps * chord_sq(s[0], s.last()) && 1 <= m.1 < s.len() {
            lemma_split_interior(s, eps);
            lemma_tol_nonneg(eps, s[0], s.last());
            let d = m.0;
            let left = s.take(m.1);
            let right = s.skip(m.1);
            let la = dp(left, eps);
            let rb = dp(right, eps);
            lemma_dp_endpoints(left, eps);
            lemma_dp_endpoints(right, eps);
            lemma_dp_elements(left, eps);
            lemma_dp_elements(right, eps);
            lemma_dp_idempotent(left, eps);
            lemma_dp_idempotent(right, eps);
            lemma_cross_endpoints(s[0], s.last());
            // the concatenation keeps the original chord
            assert(r[0] == s[0] && r.last() == s.last());
            assert(r[la.len() as int] == rb[0]);
            assert(rb[0] == s[m.1]);
            // every point of the left half sits strictly below the peak,
            // every point of the right half at or below it
            assert forall|k: int| 1 <= k < la.len() implies cross_sq(
                #[trigger] r[k],
                r[0],
                r.last(),
            ) < d by {
                assert(r[k] == la[k]);
                let k0 = choose|k0: int| 0 <= k0 < left.len() && left[k0] == la[k];
                assert(s[k0] == la[k]);
            }
            assert forall|k: int| la.len() < k < r.len() implies cross_sq(
                #[trigger] r[k],
                r[0],
                r.last(),
            ) <= d by {
                let kk = k - la.len();
                assert(r[k] == rb[kk]);
                let k0 = choose|k0: int| 0 <= k0 < right.len() && right[k0] == rb[kk];
                assert(s[m.1 + k0] == rb[kk]);
            }
            assert(cross_sq(r[la.len() as int], r[0], r.last()) == d);
            lemma_peak_profile(r, la.len() as int, d, r.len() as int);
            assert(peak(r, r.len() as int) == (d, la.len() as int));
            // so the rerun splits at the same point, into the same halves
            assert(r.len() >= 3);
            assert(chord_sq(r[0], r.last()) == chord_sq(s[0], s.last()));
            assert(r.take(la.len() as int) =~= la);
            assert(r.skip(la.len() as int) =~= rb);
            assert(dp(r, eps) == dp(la, eps) + dp(rb, eps));
        } else {
            // two points are returned, and they simplify to themselves
        }
    }
}

/// Bound on a product from bounds on its factors.
proof fn lemma_mul_bound(x: int, y: int, a: int, b: int)
    by (nonlinear_arith)
    requires
        -a <= x <= a,
        -b <= y <= b,
        0 <= a,
        0 <= b,
    ensures
        -(a * b) <= x * y <= a * b,
{
}

/// An empty structure owning the simplification routines.
pub struct FlightSimplify {}

impl FlightSimplify {
    /// Squared cross product of two in-range points against a chord,
    /// computed exactly.
    fn cross_sq_exec(p: &FlightPoint, a: &FlightPoint, b: &FlightPoint) -> (c: i128)
        requires
            p.wf(),
            a.wf(),
            b.wf(),
        ensures
            c as int == cross_sq(*p, *a, *b),
            c >= 0,
    {
        let dlat: i64 = (b.lat as i64) - (a.lat as i64);
        let dlong: i64 = (b.long as i64) - (a.long as i64);
        let plat: i64 = (p.lat as i64) - (a.lat as i64);
        let plong: i64 = (p.long as i64) - (a.long as i64);
        proof {
            lemma_mul_bound(dlat as int, plong as int, 12_079_998, 120_079_998);
            lemma_mul_bound(dlong as int, plat as int, 120_079_998, 12_079_998);
        }
        let cr: i64 = dlat * plong - dlong * plat;
        proof {
            lemma_mul_bound(cr as int, cr as int, 2_901_132_271_360_008, 2_901_132_271_360_008);
            assert((cr as int) * (cr as int) >= 0) by (nonlinear_arith);
        }
        let c: i128 = (cr as i128) * (cr as i128);
        c
    }

    /// Squared chord length of two in-range points, computed exactly.
    fn chord_sq_exec(a: &FlightPoint, b: &FlightPoint) -> (c: i128)
        requires
            a.wf(),
            b.wf(),
        ensures
            c as int == chord_sq(*a, *b),
            0 <= c <= 15_000_000_000_000_000,
    {
        let dlat: i64 = (b.lat as i64) - (a.lat as i64);
        let dlong: i64 = (b.long as i64) - (a.long as i64);
        proof {
            lemma_mul_bound(dlat as int, dlat as int, 12_079_998, 12_079_998);
            lemma_mul_bound(dlong as int, dlong as int, 120_079_998, 120_079_998);
            assert((dlat as int) * (dlat as int) >= 0) by (nonlinear_arith);
            assert((dlong as int) * (dlong as int) >= 0) by (nonlinear_arith);
        }
        (dlat as i128) * (dlat as i128) + (dlong as i128) * (dlong as i128)
    }

    /// Copies the samples `a .. b` of a trace.
    fn subvec(v: &Vec<FlightPoint>, a: usize, b: usize) -> (r: Vec<FlightPoint>)
        requires
            a <= b <= v@.len(),
        ensures
            r@ == v@.subrange(a as int, b as int),
    {
        let mut r: Vec<FlightPoint> = Vec::new();
        let mut i: usize = a;
        while i < b
            invariant
                a <= i <= b <= v@.len(),
                r@ == v@.subrange(a as int, i as int),
            decreases b - i,
        {
            r.push(v[i]);
            i = i + 1;
        }
        assert(r@ =~= v@.subrange(a as int, b as int));
        r
    }

    /// Reduces a trace to the subsequence whose perpendicular deviation
    /// from each chord stays within `epsilon`, given in thousandths of a
    /// minute of arc. Fewer than three samples are returned unchanged;
    /// otherwise the first and last sample always remain.
    pub fn douglas_peucker(pointlist: &Vec<FlightPoint>, epsilon: u32) -> (r: Vec<FlightPoint>)
        requires
            wf_trace(pointlist@),
        ensures
            r@ == dp(pointlist@, epsilon as int),
        decreases pointlist@.len(),
    {
        let end = pointlist.len();
        if end < 3 {
            let r = Self::subvec(pointlist, 0, end);
            assert(r@ =~= pointlist@);
            return r;
        }
        let a = pointlist[0];
        let b = pointlist[end - 1];
        let mut dmax: i128 = 0;
        let mut index: usize = 0;
        let mut cpt: usize = 1;
        while cpt < end
            invariant
                3 <= end == pointlist@.len(),
                wf_trace(pointlist@),
                a == pointlist@[0],
                b == pointlist@.last(),
                1 <= cpt <= end,
                0 <= index < cpt,
                dmax as int == peak(pointlist@, cpt as int).0,
                index as int == peak(pointlist@, cpt as int).1,
            decreases end - cpt,
        {
            let p = pointlist[cpt];
            let c = Self::cross_sq_exec(&p, &a, &b);
            if c > dmax {
                dmax = c;
                index = cpt;
            }
            cpt = cpt + 1;
        }
        let chord = Self::chord_sq_exec(&a, &b);
        proof {
            lemma_mul_bound(epsilon as int, epsilon as int, 0x1_0000_0000, 0x1_0000_0000);
            lemma_mul_bound(
                (epsilon as int) * (epsilon as int),
                chord as int,
                0x1_0000_0000_0000_0000,
                15_000_000_000_000_000,
            );
        }
        let rhs: i128 = (epsilon as i128) * (epsilon as i128) * chord;
        if dmax > rhs {
            proof {
                lemma_peak_props(pointlist@, end as int);
                assert((epsilon as int) * (epsilon as int) * (chord as int) >= 0)
                    by (nonlinear_arith)
                    requires
                        (chord as int) >= 0,
                ;
                assert(index != 0);
            }
            let left = Self::subvec(pointlist, 0, index);
            let right = Self::subvec(pointlist, index, end);
            assert(wf_trace(left@));
            assert(wf_trace(right@));
            let mut res1 = Self::douglas_peucker(&left, epsilon);
            let mut res2 = Self::douglas_peucker(&right, epsilon);
            res1.append(&mut res2);
            res1
        } else {
            let mut result: Vec<FlightPoint> = Vec::new();
            result.push(a);
            result.push(b);
            assert(result@ =~= seq![pointlist@[0], pointlist@.last()]);
            result
        }
    }
}

} // verus!
