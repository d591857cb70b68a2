//! The sliding cost buffer: a size-bounded container whose cost is purely
//! local. Each insertion completes the cost of the sample that just gained
//! both neighbours; when the buffer overflows its fixed size budget, the
//! interior sample of minimum cost is removed and exactly its two former
//! neighbours are recomputed against their new neighbour pairs. No error
//! is propagated between evictions.

use vstd::prelude::*;
use crate::point::{Point, points_wf, times_sorted};
use crate::metrics::{sed, spec_sed};
use crate::subseq::{is_index_map, is_subsequence, lemma_index_map_gap};

verus! {

/// The purely local cost of the interior sample at `k`: its SED against
/// the chord through its immediate neighbours.
pub open spec fn local_cost(pts: Seq<Point>, k: int) -> int {
    spec_sed(pts[k - 1], pts[k], pts[k + 1])
}

/// `j` is the lowest-index minimum of the local costs over the interior
/// samples of `pts` (both anchors excluded).
pub open spec fn first_local_min(pts: Seq<Point>, j: int) -> bool {
    &&& 1 <= j < pts.len() - 1
    &&& forall|k: int| 1 <= k < pts.len() - 1 ==> local_cost(pts, j) <= #[trigger] local_cost(pts, k)
    &&& forall|k: int| 1 <= k < j ==> #[trigger] local_cost(pts, k) > local_cost(pts, j)
}

/// A retained sample with its purely local cost.
#[derive(Clone, Copy)]
struct SlidingEntry {
    point: Point,
    cost: u64,
}

/// Size-bounded buffer of retained samples in chronological order.
///
/// The first and last retained samples are always the first and last
/// samples consumed so far; eviction only ever touches interior samples.
pub struct SlidingCostBuffer {
    entries: Vec<SlidingEntry>,
    max_size: usize,
    hist: Ghost<Seq<Point>>,
    pos: Ghost<Seq<int>>,
}

impl SlidingCostBuffer {
    /// The retained samples, in order.
    pub closed spec fn points(self) -> Seq<Point> {
        self.entries@.map(|_k: int, e: SlidingEntry| e.point)
    }

    /// The stored cost of each retained sample.
    pub closed spec fn costs(self) -> Seq<int> {
        self.entries@.map(|_k: int, e: SlidingEntry| e.cost as int)
    }

    /// Every sample consumed so far, in order of arrival.
    pub closed spec fn history(self) -> Seq<Point> {
        self.hist@
    }

    /// The size budget: the buffer never holds more samples than this.
    pub closed spec fn limit(self) -> int {
        self.max_size as int
    }

    /// The structural part of the invariant: the retained run is an
    /// anchored subsequence of the well-formed, chronologically ordered
    /// history.
    spec fn shape(self) -> bool {
        let n = self.entries@.len() as int;
        &&& self.max_size >= 3
        &&& self.pos@.len() == n
        &&& forall|k: int| 0 <= k < n ==> 0 <= #[trigger] self.pos@[k] < self.hist@.len()
        &&& forall|k: int|
            0 <= k < n ==> (#[trigger] self.entries@[k]).point == self.hist@[self.pos@[k]]
        &&& forall|a: int, b: int|
            #![trigger self.pos@[a], self.pos@[b]]
            0 <= a < b < n ==> self.pos@[a] < self.pos@[b]
        &&& n >= 1 ==> self.pos@[0] == 0
        &&& n >= 1 ==> self.pos@[n - 1] == self.hist@.len() - 1
        &&& self.hist@.len() == 0 ==> n == 0
        &&& self.hist@.len() == 1 ==> n == 1
        &&& self.hist@.len() >= 2 ==> n >= 2
        &&& points_wf(self.hist@)
        &&& times_sorted(self.hist@)
    }

    /// The shape together with cost correctness: every interior cost is
    /// the SED against the current neighbour pair.
    spec fn inv(self) -> bool {
        &&& self.shape()
        &&& forall|k: int|
            1 <= k <= self.entries@.len() - 2 ==> self.costs()[k] == #[trigger] local_cost(
                self.points(),
                k,
            )
    }

    pub closed spec fn wf(self) -> bool {
        &&& self.inv()
        &&& self.entries@.len() <= self.max_size
    }

    /// The retained run is an order-preserving subsequence of the history,
    /// within the size budget, anchored at both ends; a history of exactly
    /// two samples is retained unchanged.
    pub proof fn lemma_wf_shape(self)
        requires
            self.wf(),
        ensures
            is_subsequence(self.points(), self.history()),
            self.points().len() <= self.limit(),
            self.points().len() <= self.history().len(),
            self.history().len() >= 1 ==> self.points().len() >= 1
                && self.points()[0] == self.history()[0]
                && self.points().last() == self.history().last(),
            self.history().len() >= 2 ==> self.points().len() >= 2,
            self.history().len() == 2 ==> self.points() == self.history(),
    {
        let n = self.points().len() as int;
        assert(is_index_map(self.pos@, self.points(), self.hist@));
        if n >= 2 {
            lemma_index_map_gap(self.pos@, self.points(), self.hist@, 0, n - 1);
        }
        if self.hist@.len() == 2 {
            assert(self.pos@[0] == 0 && self.pos@[n - 1] == 1);
            assert(self.points() =~= self.history());
        }
    }

    /// The cost model at rest: the cost of every interior retained sample
    /// is purely local, exactly its SED against the current neighbour
    /// pair, with nothing carried over from earlier evictions.
    pub proof fn lemma_cost_model(self)
        requires
            self.wf(),
        ensures
            forall|k: int|
                1 <= k <= self.points().len() - 2 ==> self.costs()[k] == #[trigger] local_cost(
                    self.points(),
                    k,
                ),
    {
    }

    /// Fresh empty buffer with the given size budget.
    pub fn new(max_size: usize) -> (b: SlidingCostBuffer)
        requires
            max_size >= 3,
        ensures
            b.wf(),
            b.limit() == max_size as int,
            b.history().len() == 0,
            b.points().len() == 0,
    {
        let b = SlidingCostBuffer {
            entries: Vec::new(),
            max_size,
            hist: Ghost(Seq::empty()),
            pos: Ghost(Seq::empty()),
        };
        proof {
            assert(b.points() =~= Seq::<Point>::empty());
        }
        b
    }

    pub fn len(&self) -> (n: usize)
        ensures
            n as int == self.points().len(),
    {
        self.entries.len()
    }

    pub fn point_at(&self, k: usize) -> (p: Point)
        requires
            (k as int) < self.points().len(),
        ensures
            p == self.points()[k as int],
    {
        self.entries[k].point
    }

    pub fn cost_at(&self, k: usize) -> (c: u64)
        requires
            (k as int) < self.points().len(),
        ensures
            c as int == self.costs()[k as int],
    {
        self.entries[k].cost
    }

    /// Index of the minimum-cost interior sample; ties break towards the
    /// lowest index.
    pub fn find_min_cost(&self) -> (i: usize)
        requires
            self.points().len() >= 3,
        ensures
            1 <= (i as int) < self.points().len() - 1,
            forall|k: int|
                1 <= k < self.points().len() - 1 ==> self.costs()[i as int] <= #[trigger] self.costs()[k],
            forall|k: int| 1 <= k < i as int ==> #[trigger] self.costs()[k] > self.costs()[i as int],
    {
        let n: usize = self.entries.len();
        let mut best: usize = 1;
        let mut k: usize = 2;
        while k < n - 1
            invariant
                n as int == self.points().len(),
                3 <= n,
                2 <= k <= n - 1,
                1 <= best < k,
                forall|j: int| 1 <= j < k ==> self.costs()[best as int] <= #[trigger] self.costs()[j],
                forall|j: int| 1 <= j < best ==> #[trigger] self.costs()[j] > self.costs()[best as int],
            decreases n - k,
        {
            if self.entries[k].cost < self.entries[best].cost {
                best = k;
            }
            k += 1;
        }
        best
    }

    /// Times of two retained samples are ordered like their positions.
    proof fn lemma_entry_times(self, a: int, b: int)
        requires
            self.shape(),
            0 <= a <= b < self.points().len(),
        ensures
            self.entries@[a].point.time <= self.entries@[b].point.time,
            self.entries@[a].point.wf(),
            self.entries@[b].point.wf(),
    {
        if a < b {
            assert(self.pos@[a] < self.pos@[b]);
        }
    }

    /// Append one sample (chronologically after everything consumed so
    /// far), complete the cost of the sample that just gained both
    /// neighbours, and if the budget is now exceeded evict the
    /// lowest-index minimum-cost interior sample, recomputing its two
    /// former neighbours.
    #[verifier::rlimit(60)]
    #[verifier::spinoff_prover]
    pub fn insert(&mut self, p: Point)
        requires
            old(self).wf(),
            p.wf(),
            old(self).history().len() > 0 ==> p.time >= old(self).history().last().time,
        ensures
            final(self).wf(),
            final(self).limit() == old(self).limit(),
            final(self).history() == old(self).history().push(p),
            final(self).points().len() <= final(self).limit(),
            final(self).points().last() == p,
            forall|k: int|
                1 <= k <= final(self).points().len() - 2 ==> final(self).costs()[k]
                    == #[trigger] local_cost(final(self).points(), k),
            old(self).points().len() + 1 <= final(self).limit() ==> final(self).points()
                == old(self).points().push(p),
            old(self).points().len() + 1 > final(self).limit() ==> (exists|j: int|
                #[trigger] first_local_min(old(self).points().push(p), j) && final(self).points()
                    == old(self).points().push(p).remove(j)),
    {
        let ghost full = old(self).points().push(p);
        let ghost h1 = old(self).history().push(p);
        proof {
            let h0 = old(self).hist@;
            assert forall|a: int, b: int| 0 <= a <= b < h1.len() implies #[trigger] h1[a].time
                <= #[trigger] h1[b].time by {
                if b < h1.len() - 1 {
                    assert(h0[a].time <= h0[b].time);
                } else if a < h1.len() - 1 {
                    assert(h0[a].time <= h0[h1.len() - 2].time);
                }
            }
            assert forall|k: int| 0 <= k < h1.len() implies (#[trigger] h1[k]).wf() by {
                if k < h1.len() - 1 {
                    assert(h0[k].wf());
                }
            }
        }
        self.entries.push(SlidingEntry { point: p, cost: 0 });
        proof {
            self.pos@ = self.pos@.push(self.hist@.len() as int);
            self.hist@ = self.hist@.push(p);
            assert(self.points() =~= full);
            assert(self.shape());
        }
        let n: usize = self.entries.len();
        if n >= 3 {
            // the sample two positions back now has both neighbours
            let s: Point = self.entries[n - 3].point;
            let e: Point = self.entries[n - 1].point;
            let mut mid: SlidingEntry = self.entries[n - 2];
            proof {
                self.lemma_entry_times(n as int - 3, n as int - 2);
                self.lemma_entry_times(n as int - 2, n as int - 1);
            }
            mid.cost = sed(&s, &mid.point, &e);
            self.entries[n - 2] = mid;
            proof {
                assert(self.points() =~= full);
                assert(self.shape());
            }
        }
        proof {
            assert forall|k: int| 1 <= k <= self.entries@.len() - 2 implies self.costs()[k]
                == #[trigger] local_cost(self.points(), k) by {
                if k <= self.entries@.len() - 3 {
                    assert(self.entries@[k] == old(self).entries@[k]);
                    assert(old(self).costs()[k] == local_cost(old(self).points(), k));
                    assert(self.points()[k - 1] == old(self).points()[k - 1]);
                    assert(self.points()[k] == old(self).points()[k]);
                    assert(self.points()[k + 1] == old(self).points()[k + 1]);
                }
            }
            assert(self.inv());
        }
        if self.entries.len() > self.max_size {
            let i: usize = self.find_min_cost();
            proof {
                assert(self.points() == full);
                assert forall|k: int| 1 <= k < full.len() - 1 implies self.costs()[k]
                    == #[trigger] local_cost(full, k) by {}
                assert(first_local_min(full, i as int));
            }
            self.evict(i);
            proof {
                assert(self.points() == full.remove(i as int));
            }
        }
    }

    /// Remove the interior sample at `i` and recompute the local cost of
    /// its two former neighbours (when they are themselves interior).
    #[verifier::rlimit(60)]
    #[verifier::spinoff_prover]
    fn evict(&mut self, i: usize)
        requires
            old(self).inv(),
            old(self).points().len() >= 3,
            1 <= (i as int) <= old(self).points().len() - 2,
        ensures
            final(self).inv(),
            final(self).limit() == old(self).limit(),
            final(self).history() == old(self).history(),
            final(self).points() == old(self).points().remove(i as int),
            final(self).points().last() == old(self).points().last(),
            final(self).points()[0] == old(self).points()[0],
    {
        let ghost opts = old(self).points();
        let n: usize = self.entries.len();
        if i >= 2 {
            let s: Point = self.entries[i - 2].point;
            let e: Point = self.entries[i + 1].point;
            let mut left: SlidingEntry = self.entries[i - 1];
            proof {
                self.lemma_entry_times(i as int - 2, i as int - 1);
                self.lemma_entry_times(i as int - 1, i as int + 1);
            }
            left.cost = sed(&s, &left.point, &e);
            self.entries[i - 1] = left;
            proof {
                assert(self.points() =~= opts);
                assert(self.shape());
            }
        }
        if i + 2 < n {
            let s: Point = self.entries[i - 1].point;
            let e: Point = self.entries[i + 2].point;
            let mut right: SlidingEntry = self.entries[i + 1];
            proof {
                self.lemma_entry_times(i as int - 1, i as int + 1);
                self.lemma_entry_times(i as int + 1, i as int + 2);
            }
            right.cost = sed(&s, &right.point, &e);
            self.entries[i + 1] = right;
            proof {
                assert(self.points() =~= opts);
                assert(self.shape());
            }
        }
        let ghost mid = *self;
        self.entries.remove(i);
        proof {
            self.pos@ = self.pos@.remove(i as int);
            let j = i as int;
            assert forall|k: int| 0 <= k < self.entries@.len() implies #[trigger] self.entries@[k]
                == (if k < j { mid.entries@[k] } else { mid.entries@[k + 1] }) by {}
            assert forall|k: int| 0 <= k < self.pos@.len() implies #[trigger] self.pos@[k]
                == (if k < j { mid.pos@[k] } else { mid.pos@[k + 1] }) by {}
            assert(self.points() =~= opts.remove(j));
            assert(self.points().last() == opts.last());
            assert(self.shape());
            assert forall|k: int| 1 <= k <= self.entries@.len() - 2 implies self.costs()[k]
                == #[trigger] local_cost(self.points(), k) by {
                if k <= j - 2 {
                    // untouched entry with untouched neighbours
                    assert(self.costs()[k] == old(self).costs()[k]);
                    assert(old(self).costs()[k] == local_cost(opts, k));
                } else if k == j - 1 {
                    // recomputed against the surviving right neighbour
                    assert(self.points()[k - 1] == opts[j - 2]);
                    assert(self.points()[k] == opts[j - 1]);
                    assert(self.points()[k + 1] == opts[j + 1]);
                } else if k == j {
                    // recomputed against the surviving left neighbour
                    assert(self.points()[k - 1] == opts[j - 1]);
                    assert(self.points()[k] == opts[j + 1]);
                    assert(self.points()[k + 1] == opts[j + 2]);
                } else {
                    // untouched entry; its neighbours all sit past the gap
                    assert(self.costs()[k] == old(self).costs()[k + 1]);
                    assert(old(self).costs()[k + 1] == local_cost(opts, k + 1));
                    assert(self.points()[k - 1] == opts[k]);
                    assert(self.points()[k] == opts[k + 1]);
                    assert(self.points()[k + 1] == opts[k + 2]);
                }
            }
            assert(self.inv());
        }
    }

    /// The retained samples as a plain vector.
    pub fn to_points(&self) -> (r: Vec<Point>)
        ensures
            r@ == self.points(),
    {
        let mut r: Vec<Point> = Vec::new();
        let n: usize = self.entries.len();
        let mut k: usize = 0;
        while k < n
            invariant
                n as int == self.points().len(),
                k <= n,
                r@.len() == k as int,
                forall|j: int| 0 <= j < k ==> #[trigger] r@[j] == self.points()[j],
            decreases n - k,
        {
            r.push(self.entries[k].point);
            k += 1;
        }
        proof {
            assert(r@ =~= self.points());
        }
        r
    }
}

/// The size budget the sliding engine derives from the compression ratio
/// `num / den` and the input length `n`, clamped to the machine word.
pub open spec fn spec_buffer_limit(num: int, den: int, n: int) -> int {
    if (num * n) / den > usize::MAX as int {
        usize::MAX as int
    } else {
        (num * n) / den
    }
}

/// Trace-style streaming simplification: a sliding cost buffer whose size
/// budget is `floor(num / den * n)`. A budget of two or less degenerates
/// to retaining only the two anchors.
pub fn sttrace(points: &Vec<Point>, num: u64, den: u64) -> (r: Vec<Point>)
    requires
        points@.len() >= 2,
        num >= 1,
        den >= 1,
        points_wf(points@),
        times_sorted(points@),
    ensures
        is_subsequence(r@, points@),
        2 <= r@.len() <= points@.len(),
        r@[0] == points@[0],
        r@.last() == points@.last(),
        r@.len() <= vstd::math::max(spec_buffer_limit(num as int, den as int, points@.len() as int), 2),
        spec_buffer_limit(num as int, den as int, points@.len() as int) <= 2 ==> r@.len() == 2,
        spec_buffer_limit(num as int, den as int, points@.len() as int) >= 3 ==> r@.len()
            == vstd::math::min(
            points@.len() as int,
            spec_buffer_limit(num as int, den as int, points@.len() as int),
        ),
        points@.len() == 2 ==> r@ == points@,
{
    let n: usize = points.len();
    proof {
        assert((num as int) * (n as int) <= 0xFFFF_FFFF_FFFF_FFFF * 0xFFFF_FFFF_FFFF_FFFF)
            by (nonlinear_arith)
            requires 0 <= num <= 0xFFFF_FFFF_FFFF_FFFF, 0 <= n <= 0xFFFF_FFFF_FFFF_FFFF;
    }
    let max128: u128 = (num as u128) * (n as u128) / (den as u128);
    let max_size: usize = if max128 > usize::MAX as u128 {
        usize::MAX
    } else {
        max128 as usize
    };
    if max_size <= 2 {
        let mut r: Vec<Point> = Vec::new();
        r.push(points[0]);
        r.push(points[n - 1]);
        proof {
            let m = seq![0int, n as int - 1];
            assert(is_index_map(m, r@, points@));
            if n == 2 {
                assert(r@ =~= points@);
            }
        }
        return r;
    }
    let mut buf = SlidingCostBuffer::new(max_size);
    let mut i: usize = 0;
    while i < n
        invariant
            buf.wf(),
            buf.limit() == max_size as int,
            max_size >= 3,
            n as int == points@.len(),
            i <= n,
            buf.history() == points@.take(i as int),
            buf.points().len() == vstd::math::min(i as int, max_size as int),
            points_wf(points@),
            times_sorted(points@),
        decreases n - i,
    {
        proof {
            if i > 0 {
                assert(buf.history().last() == points@[i as int - 1]);
            }
        }
        buf.insert(points[i]);
        proof {
            assert(buf.history() =~= points@.take(i as int + 1));
        }
        i += 1;
    }
    let r = buf.to_points();
    proof {
        assert(points@.take(n as int) =~= points@);
        buf.lemma_wf_shape();
    }
    r
}

} // verus!
