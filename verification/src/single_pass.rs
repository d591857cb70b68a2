//! The simpler single-pass filters that share the sample model and the
//! metric surface with the buffer engines but need no buffer management:
//! uniform sub-sampling and the opening-window tests (perpendicular
//! distance and time-synchronous distance). Each consumes a run of
//! samples and produces an order-preserving subsequence that keeps both
//! anchors.

use vstd::prelude::*;
use vstd::arithmetic::div_mod::lemma_fundamental_div_mod;
use crate::point::{Point, points_wf, times_sorted};
use crate::metrics::{ped, sed, spec_ped, spec_sed};
use crate::subseq::{is_index_map, is_subsequence, lemma_index_map_gap};

verus! {

/// Gather the samples at the given positions.
fn collect_points(points: &Vec<Point>, idxs: &Vec<usize>) -> (r: Vec<Point>)
    requires
        forall|k: int| 0 <= k < idxs@.len() ==> (#[trigger] idxs@[k]) < points@.len(),
    ensures
        r@.len() == idxs@.len(),
        forall|k: int| 0 <= k < r@.len() ==> #[trigger] r@[k] == points@[idxs@[k] as int],
{
    let mut r: Vec<Point> = Vec::new();
    let n: usize = idxs.len();
    let mut k: usize = 0;
    while k < n
        invariant
            n == idxs@.len(),
            k <= n,
            r@.len() == k as int,
            forall|j: int| 0 <= j < idxs@.len() ==> (#[trigger] idxs@[j]) < points@.len(),
            forall|j: int| 0 <= j < k ==> #[trigger] r@[j] == points@[idxs@[j] as int],
        decreases n - k,
    {
        r.push(points[idxs[k]]);
        k += 1;
    }
    r
}

/// A strictly increasing position list that starts at zero and ends at
/// the last input position witnesses the output contract shared by every
/// single-pass filter.
proof fn lemma_positions_shape(idxs: Seq<int>, r: Seq<Point>, s: Seq<Point>)
    requires
        is_index_map(idxs, r, s),
        idxs.len() >= 2,
        idxs[0] == 0,
        idxs.last() == s.len() - 1,
    ensures
        is_subsequence(r, s),
        2 <= r.len() <= s.len(),
        r[0] == s[0],
        r.last() == s.last(),
{
    lemma_index_map_gap(idxs, r, s, 0, idxs.len() - 1);
}

/// `x / e == q` exactly when `x` lies in the `q`-th window of width `e`.
proof fn lemma_div_interval(x: int, e: int, q: int)
    requires
        e >= 1,
        q >= 0,
        q * e <= x,
        x < (q + 1) * e,
    ensures
        x / e == q,
{
    lemma_fundamental_div_mod(x, e);
    assert(x / e == q) by (nonlinear_arith)
        requires
            x == e * (x / e) + x % e,
            0 <= x % e < e,
            q * e <= x,
            x < (q + 1) * e;
}

/// The positions uniform sub-sampling keeps for a run of length `n` and
/// a stride of `eps`: every multiple of the stride, and the final
/// position whenever it is not itself a multiple.
pub open spec fn uniform_indices(n: int, eps: int) -> Seq<int>
    recommends
        n >= 2,
        eps >= 1,
{
    let t = (n - 1) / eps;
    let base = Seq::new((t + 1) as nat, |k: int| k * eps);
    if t * eps == n - 1 {
        base
    } else {
        base.push(n - 1)
    }
}

/// Uniform sub-sampling: keep every `eps`-th sample and both anchors.
pub fn uniform(points: &Vec<Point>, eps: usize) -> (r: Vec<Point>)
    requires
        points@.len() >= 2,
        eps >= 1,
    ensures
        r@.len() == uniform_indices(points@.len() as int, eps as int).len(),
        forall|k: int|
            0 <= k < r@.len() ==> #[trigger] r@[k] == points@[uniform_indices(
                points@.len() as int,
                eps as int,
            )[k]],
        is_subsequence(r@, points@),
        2 <= r@.len() <= points@.len(),
        r@[0] == points@[0],
        r@.last() == points@.last(),
{
    let n: usize = points.len();
    let mut idxs: Vec<usize> = Vec::new();
    let mut i: usize = 0;
    proof {
        assert(0int * (eps as int) == 0) by (nonlinear_arith);
    }
    loop
        invariant_except_break
            n as int == points@.len(),
            n >= 2,
            eps >= 1,
            i <= n - 1,
            i as int == idxs@.len() * (eps as int),
            forall|k: int| 0 <= k < idxs@.len() ==> (#[trigger] idxs@[k]) as int == k * (eps as int),
        ensures
            n as int == points@.len(),
            n >= 2,
            eps >= 1,
            idxs@.len() >= 1,
            i <= n - 1,
            i as int == (idxs@.len() - 1) * (eps as int),
            (n - 1 - i) < eps,
            forall|k: int| 0 <= k < idxs@.len() ==> (#[trigger] idxs@[k]) as int == k * (eps as int),
        decreases n - i,
    {
        idxs.push(i);
        if n - 1 - i < eps {
            break;
        }
        i = i + eps;
        proof {
            let l = idxs@.len() as int;
            assert(l * (eps as int) == (l - 1) * (eps as int) + (eps as int)) by (nonlinear_arith);
        }
    }
    let ghost t = (idxs@.len() - 1) as int;
    proof {
        assert((t + 1) * (eps as int) == t * (eps as int) + (eps as int)) by (nonlinear_arith);
        assert(t * (eps as int) <= n as int - 1 < (t + 1) * (eps as int));
        lemma_div_interval(n as int - 1, eps as int, t);
    }
    if i != n - 1 {
        idxs.push(n - 1);
    }
    proof {
        assert forall|k: int| 0 <= k < idxs@.len() implies (#[trigger] idxs@[k]) < n by {
            if k <= t {
                assert(k * (eps as int) <= t * (eps as int)) by (nonlinear_arith)
                    requires 0 <= k <= t, eps >= 1;
            }
        }
    }
    let r = collect_points(points, &idxs);
    proof {
        let ui = uniform_indices(points@.len() as int, eps as int);
        let m = idxs@.map(|_k: int, v: usize| v as int);
        assert forall|k: int| 0 <= k < m.len() implies #[trigger] m[k] == ui[k] by {}
        assert(m =~= ui);
        assert forall|a: int, b: int| #![trigger m[a], m[b]] 0 <= a < b < m.len() implies m[a]
            < m[b] by {
            if b <= t {
                assert(a * (eps as int) < b * (eps as int)) by (nonlinear_arith)
                    requires 0 <= a < b, eps >= 1;
            } else if a <= t {
                assert(a * (eps as int) <= t * (eps as int)) by (nonlinear_arith)
                    requires 0 <= a <= t, eps >= 1;
            }
        }
        assert(is_index_map(m, r@, points@));
        lemma_positions_shape(m, r@, points@);
    }
    r
}

/// Opening-window test on perpendicular distance: widen the window until
/// some interior sample deviates from the window's chord by more than
/// `eps`, emit it, and restart the window there. When no triple of
/// samples deviates beyond `eps`, nothing is emitted and only the two
/// anchors remain.
pub fn opw(points: &Vec<Point>, eps: u64) -> (r: Vec<Point>)
    requires
        points@.len() >= 2,
        points_wf(points@),
    ensures
        is_subsequence(r@, points@),
        2 <= r@.len() <= points@.len(),
        r@[0] == points@[0],
        r@.last() == points@.last(),
        (forall|a: int, b: int, c: int|
            0 <= a < b < c < points@.len() ==> #[trigger] spec_ped(
                points@[a],
                points@[b],
                points@[c],
            ) <= eps as int) ==> r@ == seq![points@[0], points@.last()],
{
    let n: usize = points.len();
    let ghost allsmall = forall|a: int, b: int, c: int|
        0 <= a < b < c < points@.len() ==> #[trigger] spec_ped(
            points@[a],
            points@[b],
            points@[c],
        ) <= eps as int;
    let mut idxs: Vec<usize> = Vec::new();
    let mut oi: usize = 0;
    idxs.push(0);
    let mut e: usize = 2;
    while e < n
        invariant
            n as int == points@.len(),
            n >= 2,
            points_wf(points@),
            oi + 2 <= e,
            e <= n,
            oi < n - 1,
            idxs@.len() >= 1,
            idxs@[0] == 0,
            idxs@.last() == oi,
            forall|a: int, b: int|
                #![trigger idxs@[a], idxs@[b]]
                0 <= a < b < idxs@.len() ==> idxs@[a] < idxs@[b],
            forall|k: int| 0 <= k < idxs@.len() ==> (#[trigger] idxs@[k]) < n - 1,
            allsmall == (forall|a: int, b: int, c: int|
                0 <= a < b < c < n as int ==> #[trigger] spec_ped(
                    points@[a],
                    points@[b],
                    points@[c],
                ) <= eps as int),
            allsmall ==> oi == 0 && idxs@.len() == 1,
        decreases n - oi, n - e,
    {
        let mut i: usize = oi + 1;
        while i < e
            invariant
                n as int == points@.len(),
                points_wf(points@),
                oi < i <= e,
                e < n,
            ensures
                n as int == points@.len(),
                oi < i <= e,
                e < n,
                i < e ==> spec_ped(points@[oi as int], points@[i as int], points@[e as int])
                    > eps as int,
            decreases e - i,
        {
            if ped(&points[oi], &points[i], &points[e]) > eps {
                break;
            }
            i += 1;
        }
        if i < e {
            // the window broke at `i`: emit it and restart there
            proof {
                if allsmall {
                    assert(spec_ped(points@[oi as int], points@[i as int], points@[e as int])
                        <= eps as int);
                    assert(false);
                }
            }
            oi = i;
            idxs.push(oi);
            e = oi + 2;
        } else {
            e += 1;
        }
    }
    idxs.push(n - 1);
    let r = collect_points(points, &idxs);
    proof {
        let m = idxs@.map(|_k: int, v: usize| v as int);
        assert(is_index_map(m, r@, points@));
        lemma_positions_shape(m, r@, points@);
        if allsmall {
            assert(r@ =~= seq![points@[0], points@.last()]);
        }
    }
    r
}

/// Opening-window test on time-synchronous distance: like `opw` but the
/// deviation of an interior sample is measured against its
/// time-interpolated position on the window's chord. When no triple of
/// samples deviates beyond `eps`, nothing is emitted and only the two
/// anchors remain.
pub fn opw_tr(points: &Vec<Point>, eps: u64) -> (r: Vec<Point>)
    requires
        points@.len() >= 2,
        points_wf(points@),
        times_sorted(points@),
    ensures
        is_subsequence(r@, points@),
        2 <= r@.len() <= points@.len(),
        r@[0] == points@[0],
        r@.last() == points@.last(),
        (forall|a: int, b: int, c: int|
            0 <= a < b < c < points@.len() ==> #[trigger] spec_sed(
                points@[a],
                points@[b],
                points@[c],
            ) <= eps as int) ==> r@ == seq![points@[0], points@.last()],
{
    let n: usize = points.len();
    let ghost allsmall = forall|a: int, b: int, c: int|
        0 <= a < b < c < points@.len() ==> #[trigger] spec_sed(
            points@[a],
            points@[b],
            points@[c],
        ) <= eps as int;
    let mut idxs: Vec<usize> = Vec::new();
    let mut oi: usize = 0;
    idxs.push(0);
    let mut e: usize = 2;
    while e < n
        invariant
            n as int == points@.len(),
            n >= 2,
            points_wf(points@),
            times_sorted(points@),
            oi + 2 <= e,
            e <= n,
            oi < n - 1,
            idxs@.len() >= 1,
            idxs@[0] == 0,
            idxs@.last() == oi,
            forall|a: int, b: int|
                #![trigger idxs@[a], idxs@[b]]
                0 <= a < b < idxs@.len() ==> idxs@[a] < idxs@[b],
            forall|k: int| 0 <= k < idxs@.len() ==> (#[trigger] idxs@[k]) < n - 1,
            allsmall == (forall|a: int, b: int, c: int|
                0 <= a < b < c < n as int ==> #[trigger] spec_sed(
                    points@[a],
                    points@[b],
                    points@[c],
                ) <= eps as int),
            allsmall ==> oi == 0 && idxs@.len() == 1,
        decreases n - oi, n - e,
    {
        let mut i: usize = oi + 1;
        while i < e
            invariant
                n as int == points@.len(),
                points_wf(points@),
                times_sorted(points@),
                oi < i <= e,
                e < n,
            ensures
                n as int == points@.len(),
                oi < i <= e,
                e < n,
                i < e ==> spec_sed(points@[oi as int], points@[i as int], points@[e as int])
                    > eps as int,
            decreases e - i,
        {
            if sed(&points[oi], &points[i], &points[e]) > eps {
                break;
            }
            i += 1;
        }
        if i < e {
            // the window broke at `i`: emit it and restart there
            proof {
                if allsmall {
                    assert(spec_sed(points@[oi as int], points@[i as int], points@[e as int])
                        <= eps as int);
                    assert(false);
                }
            }
            oi = i;
            idxs.push(oi);
            e = oi + 2;
        } else {
            e += 1;
        }
    }
    idxs.push(n - 1);
    let r = collect_points(points, &idxs);
    proof {
        let m = idxs@.map(|_k: int, v: usize| v as int);
        assert(is_index_map(m, r@, points@));
        lemma_positions_shape(m, r@, points@);
        if allsmall {
            assert(r@ =~= seq![points@[0], points@.last()]);
        }
    }
    r
}

} // verus!
