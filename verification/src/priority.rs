//! The priority buffer: a size-bounded, compensation-propagating
//! container of retained samples. Each interior sample carries a cost
//! (its SED against the current neighbour pair plus the compensation it
//! owes) and a compensation: a lower bound on error already absorbed on
//! its behalf by previously evicted neighbours. Evicting a sample hands
//! its full cost to both neighbours as compensation, never decreasing an
//! existing compensation, so later decisions account for error that has
//! already been absorbed.
//!
//! The capacity is not fixed up front: it grows with the number of
//! samples consumed so that the buffer tracks the target compression
//! ratio. Once the stream is exhausted, a converging phase keeps evicting
//! the minimum-cost interior sample while that cost stays within the
//! target error bound.

use vstd::prelude::*;
use crate::point::{Point, points_wf, times_sorted};
use crate::metrics::{sed, spec_sed};
use crate::subseq::{is_index_map, is_subsequence, lemma_index_map_gap};

verus! {

/// Saturating addition on cost values: error beyond the representable
/// range pins at the maximum, which also serves as the "never evict"
/// sentinel a fresh sample starts with.
pub open spec fn sat_add(a: int, b: int) -> int {
    if a + b > u128::MAX as int {
        u128::MAX as int
    } else {
        a + b
    }
}

/// The cost of the interior sample at `k`: its own compensation plus its
/// SED against the chord through its immediate neighbours.
pub open spec fn priority_of(pts: Seq<Point>, cs: Seq<int>, k: int) -> int {
    sat_add(cs[k], spec_sed(pts[k - 1], pts[k], pts[k + 1]))
}

/// `j` is the lowest-index minimum of the costs over the interior
/// samples (both anchors excluded).
pub open spec fn first_priority_min(pts: Seq<Point>, cs: Seq<int>, j: int) -> bool {
    &&& 1 <= j < pts.len() - 1
    &&& forall|k: int|
        1 <= k < pts.len() - 1 ==> priority_of(pts, cs, j) <= #[trigger] priority_of(pts, cs, k)
    &&& forall|k: int| 1 <= k < j ==> #[trigger] priority_of(pts, cs, k) > priority_of(pts, cs, j)
}

/// Compensations after evicting the sample at `j` whose cost was `c`:
/// both neighbours absorb at least `c`, then the evicted slot disappears.
pub open spec fn reduce_comps(cs: Seq<int>, c: int, j: int) -> Seq<int> {
    cs.update(j - 1, vstd::math::max(cs[j - 1], c)).update(
        j + 1,
        vstd::math::max(cs[j + 1], c),
    ).remove(j)
}

/// One reduction step never decreases the compensation of a surviving
/// sample.
pub proof fn lemma_reduce_comps_monotone(cs: Seq<int>, c: int, j: int)
    requires
        1 <= j <= cs.len() - 2,
    ensures
        reduce_comps(cs, c, j).len() == cs.len() - 1,
        forall|k: int|
            0 <= k < j ==> #[trigger] reduce_comps(cs, c, j)[k] >= cs[k],
        forall|k: int|
            j <= k < cs.len() - 1 ==> #[trigger] reduce_comps(cs, c, j)[k] >= cs[k + 1],
{
}

/// `m` maps the positions of a reduced run of samples (and their
/// compensations) back into an earlier run: an anchored subsequence whose
/// surviving compensations never decreased.
pub open spec fn retain_map(
    m: Seq<int>,
    pts: Seq<Point>,
    cs: Seq<int>,
    pts0: Seq<Point>,
    cs0: Seq<int>,
) -> bool {
    &&& is_index_map(m, pts, pts0)
    &&& cs.len() == pts.len()
    &&& cs0.len() == pts0.len()
    &&& forall|k: int| 0 <= k < m.len() ==> #[trigger] cs[k] >= cs0[m[k]]
    &&& m.len() >= 1 ==> m[0] == 0 && m.last() == pts0.len() - 1
}

/// A reduction step composes with an existing retain map.
pub proof fn lemma_retain_step(
    m: Seq<int>,
    pts: Seq<Point>,
    cs: Seq<int>,
    pts0: Seq<Point>,
    cs0: Seq<int>,
    c: int,
    j: int,
)
    requires
        retain_map(m, pts, cs, pts0, cs0),
        pts.len() >= 3,
        1 <= j <= pts.len() - 2,
    ensures
        retain_map(m.remove(j), pts.remove(j), reduce_comps(cs, c, j), pts0, cs0),
{
    let m1 = m.remove(j);
    let p1 = pts.remove(j);
    let c1 = reduce_comps(cs, c, j);
    assert forall|k: int| 0 <= k < m1.len() implies 0 <= #[trigger] m1[k] < pts0.len()
        && p1[k] == pts0[m1[k]] && c1[k] >= cs0[m1[k]] by {
        if k < j {
            assert(m1[k] == m[k]);
            assert(c1[k] >= cs[k]);
        } else {
            assert(m1[k] == m[k + 1]);
            assert(c1[k] >= cs[k + 1]);
        }
    }
    assert forall|a: int, b: int| #![trigger m1[a], m1[b]] 0 <= a < b < m1.len() implies m1[a]
        < m1[b] by {
        let a0 = if a < j { a } else { a + 1 };
        let b0 = if b < j { b } else { b + 1 };
        assert(m[a0] < m[b0]);
    }
    assert(m1.last() == m.last());
}

/// Cost correctness survives a reduction step: if every interior cost
/// matched its compensation plus its SED before the step, and the step
/// recomputed exactly the two surviving neighbours of the evicted slot,
/// then every interior cost matches again afterwards.
#[verifier::rlimit(60)]
proof fn lemma_costs_after_reduce(
    opts: Seq<Point>,
    ocs: Seq<int>,
    ocosts: Seq<int>,
    ncosts: Seq<int>,
    ji: int,
)
    requires
        3 <= opts.len(),
        ocs.len() == opts.len(),
        ocosts.len() == opts.len(),
        ncosts.len() == opts.len() - 1,
        1 <= ji <= opts.len() - 2,
        forall|k: int| 1 <= k <= opts.len() - 2 ==> ocosts[k] == #[trigger] priority_of(opts, ocs, k),
        forall|k: int|
            0 <= k < ncosts.len() ==> #[trigger] ncosts[k] == (if ji >= 2 && k == ji - 1 {
                sat_add(
                    reduce_comps(ocs, ocosts[ji], ji)[k],
                    spec_sed(opts[ji - 2], opts[ji - 1], opts[ji + 1]),
                )
            } else if ji + 2 <= opts.len() - 1 && k == ji {
                sat_add(
                    reduce_comps(ocs, ocosts[ji], ji)[k],
                    spec_sed(opts[ji - 1], opts[ji + 1], opts[ji + 2]),
                )
            } else if k < ji {
                ocosts[k]
            } else {
                ocosts[k + 1]
            }),
    ensures
        forall|k: int|
            1 <= k <= opts.len() - 3 ==> ncosts[k] == #[trigger] priority_of(
                opts.remove(ji),
                reduce_comps(ocs, ocosts[ji], ji),
                k,
            ),
{
    let np = opts.remove(ji);
    let ncs = reduce_comps(ocs, ocosts[ji], ji);
    assert forall|k: int| 1 <= k <= opts.len() - 3 implies ncosts[k] == #[trigger] priority_of(
        np,
        ncs,
        k,
    ) by {
        if k <= ji - 2 {
            assert(ocosts[k] == priority_of(opts, ocs, k));
            assert(np[k - 1] == opts[k - 1]);
            assert(np[k] == opts[k]);
            assert(np[k + 1] == opts[k + 1]);
            assert(ncs[k] == ocs[k]);
        } else if k == ji - 1 {
            assert(np[k - 1] == opts[ji - 2]);
            assert(np[k] == opts[ji - 1]);
            assert(np[k + 1] == opts[ji + 1]);
        } else if k == ji {
            assert(np[k - 1] == opts[ji - 1]);
            assert(np[k] == opts[ji + 1]);
            assert(np[k + 1] == opts[ji + 2]);
        } else {
            assert(ocosts[k + 1] == priority_of(opts, ocs, k + 1));
            assert(np[k - 1] == opts[k]);
            assert(np[k] == opts[k + 1]);
            assert(np[k + 1] == opts[k + 2]);
            assert(ncs[k] == ocs[k + 1]);
        }
    }
}

/// A retained sample with its cost and its compensation.
#[derive(Clone, Copy)]
struct PriorityEntry {
    point: Point,
    cost: u128,
    comp: u128,
}

/// Bounded priority buffer of retained samples in chronological order.
pub struct PriorityBuffer {
    entries: Vec<PriorityEntry>,
    capacity: usize,
    count: usize,
    num: u64,
    den: u64,
    hist: Ghost<Seq<Point>>,
    pos: Ghost<Seq<int>>,
}

impl PriorityBuffer {
    /// The retained samples, in order.
    pub closed spec fn points(self) -> Seq<Point> {
        self.entries@.map(|_k: int, e: PriorityEntry| e.point)
    }

    /// The stored cost of each retained sample.
    pub closed spec fn costs(self) -> Seq<int> {
        self.entries@.map(|_k: int, e: PriorityEntry| e.cost as int)
    }

    /// The compensation of each retained sample.
    pub closed spec fn comps(self) -> Seq<int> {
        self.entries@.map(|_k: int, e: PriorityEntry| e.comp as int)
    }

    /// Every sample consumed so far, in order of arrival.
    pub closed spec fn history(self) -> Seq<Point> {
        self.hist@
    }

    /// The current capacity of the schedule.
    pub closed spec fn cap(self) -> int {
        self.capacity as int
    }

    /// How many samples have been consumed.
    pub closed spec fn consumed(self) -> int {
        self.count as int
    }

    /// Numerator of the target compression ratio.
    pub closed spec fn ratio_num(self) -> int {
        self.num as int
    }

    /// Denominator of the target compression ratio.
    pub closed spec fn ratio_den(self) -> int {
        self.den as int
    }

    /// The structural part of the invariant: the retained run is an
    /// anchored subsequence of the well-formed, chronologically ordered
    /// history, and the capacity schedule stays within its bounds.
    spec fn shape(self) -> bool {
        let n = self.entries@.len() as int;
        &&& self.num >= 1
        &&& self.den >= 1
        &&& self.capacity >= 4
        &&& self.capacity as int <= self.count as int + 4
        &&& self.count == self.hist@.len()
        &&& self.pos@.len() == n
        &&& forall|k: int| 0 <= k < n ==> 0 <= #[trigger] self.pos@[k] < self.hist@.len()
        &&& forall|k: int|
            0 <= k < n ==> (#[trigger] self.entries@[k]).point == self.hist@[self.pos@[k]]
        &&& forall|a: int, b: int|
            #![trigger self.pos@[a], self.pos@[b]]
            0 <= a < b < n ==> self.pos@[a] < self.pos@[b]
        &&& n >= 1 ==> self.pos@[0] == 0
        &&& n >= 1 ==> self.pos@[n - 1] == self.hist@.len() - 1
        &&& self.hist@.len() == 0 ==> n == 0
        &&& self.hist@.len() == 1 ==> n == 1
        &&& self.hist@.len() >= 2 ==> n >= 2
        &&& points_wf(self.hist@)
        &&& times_sorted(self.hist@)
    }

    /// The shape together with cost correctness: every interior cost is
    /// the sample's compensation plus its SED against the current
    /// neighbour pair.
    spec fn inv(self) -> bool {
        &&& self.shape()
        &&& forall|k: int|
            1 <= k <= self.entries@.len() - 2 ==> self.costs()[k] == #[trigger] priority_of(
                self.points(),
                self.comps(),
                k,
            )
    }

    pub closed spec fn wf(self) -> bool {
        &&& self.inv()
        &&& (self.entries@.len() as int) < self.cap()
    }

    /// The retained run is an order-preserving subsequence of the
    /// history, strictly within the capacity, anchored at both ends; a
    /// history of exactly two samples is retained unchanged.
    pub proof fn lemma_wf_shape(self)
        requires
            self.wf(),
        ensures
            is_subsequence(self.points(), self.history()),
            self.points().len() < self.cap(),
            self.points().len() <= self.history().len(),
            self.history().len() >= 1 ==> self.points().len() >= 1
                && self.points()[0] == self.history()[0]
                && self.points().last() == self.history().last(),
            self.history().len() >= 2 ==> self.points().len() >= 2,
            self.history().len() == 2 ==> self.points() == self.history(),
    {
        let n = self.points().len() as int;
        assert(is_index_map(self.pos@, self.points(), self.hist@));
        if n >= 2 {
            lemma_index_map_gap(self.pos@, self.points(), self.hist@, 0, n - 1);
        }
        if self.hist@.len() == 2 {
            assert(self.pos@[0] == 0 && self.pos@[n - 1] == 1);
            assert(self.points() =~= self.history());
        }
    }

    /// The cost model at rest: every interior retained sample's stored
    /// cost is exactly its compensation plus its SED against the current
    /// neighbour pair.
    pub proof fn lemma_cost_model(self)
        requires
            self.wf(),
        ensures
            forall|k: int|
                1 <= k <= self.points().len() - 2 ==> self.costs()[k] == #[trigger] priority_of(
                    self.points(),
                    self.comps(),
                    k,
                ),
    {
    }

    /// Fresh empty buffer targeting the compression ratio `num / den`.
    /// The capacity schedule starts at four and grows with consumption.
    pub fn new(num: u64, den: u64) -> (b: PriorityBuffer)
        requires
            num >= 1,
            den >= 1,
        ensures
            b.wf(),
            b.ratio_num() == num as int,
            b.ratio_den() == den as int,
            b.cap() == 4,
            b.consumed() == 0,
            b.history().len() == 0,
            b.points().len() == 0,
    {
        let b = PriorityBuffer {
            entries: Vec::new(),
            capacity: 4,
            count: 0,
            num,
            den,
            hist: Ghost(Seq::empty()),
            pos: Ghost(Seq::empty()),
        };
        proof {
            assert(b.points() =~= Seq::<Point>::empty());
        }
        b
    }

    pub fn len(&self) -> (n: usize)
        ensures
            n as int == self.points().len(),
    {
        self.entries.len()
    }

    pub fn current_capacity(&self) -> (c: usize)
        ensures
            c as int == self.cap(),
    {
        self.capacity
    }

    pub fn consumed_count(&self) -> (c: usize)
        ensures
            c as int == self.consumed(),
    {
        self.count
    }

    pub fn point_at(&self, k: usize) -> (p: Point)
        requires
            (k as int) < self.points().len(),
        ensures
            p == self.points()[k as int],
    {
        self.entries[k].point
    }

    pub fn cost_at(&self, k: usize) -> (c: u128)
        requires
            (k as int) < self.points().len(),
        ensures
            c as int == self.costs()[k as int],
    {
        self.entries[k].cost
    }

    pub fn comp_at(&self, k: usize) -> (c: u128)
        requires
            (k as int) < self.points().len(),
        ensures
            c as int == self.comps()[k as int],
    {
        self.entries[k].comp
    }

    /// Index of the minimum-cost interior sample; ties break towards the
    /// lowest index.
    pub fn find_min_priority(&self) -> (i: usize)
        requires
            self.points().len() >= 3,
        ensures
            1 <= (i as int) < self.points().len() - 1,
            forall|k: int|
                1 <= k < self.points().len() - 1 ==> self.costs()[i as int]
                    <= #[trigger] self.costs()[k],
            forall|k: int| 1 <= k < i as int ==> #[trigger] self.costs()[k] > self.costs()[i as int],
    {
        let n: usize = self.entries.len();
        let mut best: usize = 1;
        let mut k: usize = 2;
        while k < n - 1
            invariant
                n as int == self.points().len(),
                3 <= n,
                2 <= k <= n - 1,
                1 <= best < k,
                forall|j: int| 1 <= j < k ==> self.costs()[best as int] <= #[trigger] self.costs()[j],
                forall|j: int| 1 <= j < best ==> #[trigger] self.costs()[j] > self.costs()[best as int],
            decreases n - k,
        {
            if self.entries[k].cost < self.entries[best].cost {
                best = k;
            }
            k += 1;
        }
        best
    }

    /// Times of two retained samples are ordered like their positions.
    proof fn lemma_entry_times(self, a: int, b: int)
        requires
            self.shape(),
            0 <= a <= b < self.points().len(),
        ensures
            self.entries@[a].point.time <= self.entries@[b].point.time,
            self.entries@[a].point.wf(),
            self.entries@[b].point.wf(),
    {
        if a < b {
            assert(self.pos@[a] < self.pos@[b]);
        }
    }

    /// Recompute the cost of the interior sample `q` against the chord
    /// from `pre` to `succ`: its own compensation plus the SED.
    #[verifier::rlimit(30)]
    fn adjust(&mut self, pre: usize, q: usize, succ: usize)
        requires
            old(self).shape(),
            pre < q < succ,
            (succ as int) < old(self).points().len(),
            1 <= (q as int) <= old(self).points().len() - 2,
        ensures
            final(self).shape(),
            final(self).points() == old(self).points(),
            final(self).comps() == old(self).comps(),
            final(self).history() == old(self).history(),
            final(self).cap() == old(self).cap(),
            final(self).consumed() == old(self).consumed(),
            final(self).ratio_num() == old(self).ratio_num(),
            final(self).ratio_den() == old(self).ratio_den(),
            final(self).costs() == old(self).costs().update(
                q as int,
                sat_add(
                    old(self).comps()[q as int],
                    spec_sed(
                        old(self).points()[pre as int],
                        old(self).points()[q as int],
                        old(self).points()[succ as int],
                    ),
                ),
            ),
    {
        let s: Point = self.entries[pre].point;
        let e: Point = self.entries[succ].point;
        let mut mid: PriorityEntry = self.entries[q];
        proof {
            self.lemma_entry_times(pre as int, q as int);
            self.lemma_entry_times(q as int, succ as int);
        }
        let d: u64 = sed(&s, &mid.point, &e);
        mid.cost = if mid.comp > u128::MAX - (d as u128) {
            u128::MAX
        } else {
            mid.comp + (d as u128)
        };
        self.entries[q] = mid;
        proof {
            assert(self.points() =~= old(self).points());
            assert(self.comps() =~= old(self).comps());
            assert(self.costs() =~= old(self).costs().update(
                q as int,
                sat_add(
                    old(self).comps()[q as int],
                    spec_sed(
                        old(self).points()[pre as int],
                        old(self).points()[q as int],
                        old(self).points()[succ as int],
                    ),
                ),
            ));
            assert(self.shape());
        }
    }

    /// The reduction step: evict the interior sample at `j`, handing its
    /// full cost to both neighbours as compensation (never decreasing an
    /// existing compensation) and recomputing the cost of each surviving
    /// neighbour that is itself interior.
    #[verifier::rlimit(100)]
    #[verifier::spinoff_prover]
    fn reduce(&mut self, j: usize)
        requires
            old(self).inv(),
            old(self).points().len() >= 3,
            1 <= (j as int) <= old(self).points().len() - 2,
        ensures
            final(self).inv(),
            final(self).history() == old(self).history(),
            final(self).cap() == old(self).cap(),
            final(self).consumed() == old(self).consumed(),
            final(self).ratio_num() == old(self).ratio_num(),
            final(self).ratio_den() == old(self).ratio_den(),
            final(self).points() == old(self).points().remove(j as int),
            final(self).comps() == reduce_comps(old(self).comps(), old(self).costs()[j as int], j as int),
            final(self).points()[0] == old(self).points()[0],
            final(self).points().last() == old(self).points().last(),
    {
        let ghost opts = old(self).points();
        let ghost ocomps = old(self).comps();
        let ghost c0 = old(self).costs()[j as int];
        let n: usize = self.entries.len();
        let c: u128 = self.entries[j].cost;
        // both neighbours absorb the evicted cost as compensation
        let mut left: PriorityEntry = self.entries[j - 1];
        if c > left.comp {
            left.comp = c;
        }
        self.entries[j - 1] = left;
        let mut right: PriorityEntry = self.entries[j + 1];
        if c > right.comp {
            right.comp = c;
        }
        self.entries[j + 1] = right;
        let ghost bumped = ocomps.update(
            j as int - 1,
            vstd::math::max(ocomps[j as int - 1], c0),
        ).update(j as int + 1, vstd::math::max(ocomps[j as int + 1], c0));
        proof {
            assert(self.points() =~= opts);
            assert(self.comps() =~= bumped);
            assert(self.costs() =~= old(self).costs());
            assert(self.shape());
        }
        // recompute each surviving neighbour that is itself interior
        if j >= 2 {
            self.adjust(j - 2, j - 1, j + 1);
        }
        if j + 2 < n {
            self.adjust(j - 1, j + 1, j + 2);
        }
        let ghost mid = *self;
        self.entries.remove(j);
        proof {
            self.pos@ = self.pos@.remove(j as int);
            let ji = j as int;
            assert forall|k: int| 0 <= k < self.entries@.len() implies #[trigger] self.entries@[k]
                == (if k < ji { mid.entries@[k] } else { mid.entries@[k + 1] }) by {}
            assert forall|k: int| 0 <= k < self.pos@.len() implies #[trigger] self.pos@[k]
                == (if k < ji { mid.pos@[k] } else { mid.pos@[k + 1] }) by {}
            assert(self.points() =~= opts.remove(ji));
            assert(self.comps() =~= reduce_comps(ocomps, c0, ji));
            assert(self.points().last() == opts.last());
            assert(self.shape());
            assert forall|k: int| 0 <= k < self.costs().len() implies #[trigger] self.costs()[k]
                == (if ji >= 2 && k == ji - 1 {
                    sat_add(
                        reduce_comps(ocomps, c0, ji)[k],
                        spec_sed(opts[ji - 2], opts[ji - 1], opts[ji + 1]),
                    )
                } else if ji + 2 <= opts.len() - 1 && k == ji {
                    sat_add(
                        reduce_comps(ocomps, c0, ji)[k],
                        spec_sed(opts[ji - 1], opts[ji + 1], opts[ji + 2]),
                    )
                } else if k < ji {
                    old(self).costs()[k]
                } else {
                    old(self).costs()[k + 1]
                }) by {
                if ji >= 2 && k == ji - 1 {
                    assert(self.costs()[k] == mid.costs()[ji - 1]);
                    assert(reduce_comps(ocomps, c0, ji)[k] == bumped[ji - 1]);
                } else if ji + 2 <= opts.len() - 1 && k == ji {
                    assert(self.costs()[k] == mid.costs()[ji + 1]);
                    assert(reduce_comps(ocomps, c0, ji)[k] == bumped[ji + 1]);
                } else if k < ji {
                    assert(self.costs()[k] == mid.costs()[k]);
                    assert(mid.costs()[k] == old(self).costs()[k]);
                } else {
                    assert(self.costs()[k] == mid.costs()[k + 1]);
                    assert(mid.costs()[k + 1] == old(self).costs()[k + 1]);
                }
            }
            lemma_costs_after_reduce(opts, ocomps, old(self).costs(), self.costs(), ji);
            assert(self.inv());
        }
    }

    /// Consume one sample (chronologically after everything consumed so
    /// far). The capacity grows by one whenever the ideal buffer size
    /// (samples consumed over the target ratio) has caught up with it;
    /// the sample is appended with sentinel cost and zero compensation;
    /// the cost of its left neighbour (the sample that just gained both
    /// neighbours) is completed; and if the buffer has now reached the
    /// capacity, the minimum-cost interior sample is evicted by the
    /// reduction step.
    #[verifier::rlimit(100)]
    #[verifier::spinoff_prover]
    pub fn insert(&mut self, p: Point)
        requires
            old(self).wf(),
            p.wf(),
            old(self).consumed() < usize::MAX - 4,
            old(self).history().len() > 0 ==> p.time >= old(self).history().last().time,
        ensures
            final(self).wf(),
            final(self).history() == old(self).history().push(p),
            final(self).consumed() == old(self).consumed() + 1,
            final(self).ratio_num() == old(self).ratio_num(),
            final(self).ratio_den() == old(self).ratio_den(),
            final(self).cap() == (if old(self).consumed() * old(self).ratio_den()
                >= old(self).cap() * old(self).ratio_num() {
                old(self).cap() + 1
            } else {
                old(self).cap()
            }),
            final(self).points().len() < final(self).cap(),
            final(self).points().last() == p,
            forall|k: int|
                1 <= k <= final(self).points().len() - 2 ==> final(self).costs()[k]
                    == #[trigger] priority_of(final(self).points(), final(self).comps(), k),
            old(self).points().len() + 1 < final(self).cap() ==> final(self).points()
                == old(self).points().push(p) && final(self).comps() == old(self).comps().push(0),
            old(self).points().len() + 1 == final(self).cap() ==> (exists|j: int|
                #[trigger] first_priority_min(
                    old(self).points().push(p),
                    old(self).comps().push(0),
                    j,
                ) && final(self).points() == old(self).points().push(p).remove(j)
                    && final(self).comps() == reduce_comps(
                    old(self).comps().push(0),
                    priority_of(old(self).points().push(p), old(self).comps().push(0), j),
                    j,
                )),
    {
        let ghost full = old(self).points().push(p);
        let ghost fc = old(self).comps().push(0);
        let ghost h1 = old(self).history().push(p);
        proof {
            let h0 = old(self).hist@;
            assert forall|a: int, b: int| 0 <= a <= b < h1.len() implies #[trigger] h1[a].time
                <= #[trigger] h1[b].time by {
                if b < h1.len() - 1 {
                    assert(h0[a].time <= h0[b].time);
                } else if a < h1.len() - 1 {
                    assert(h0[a].time <= h0[h1.len() - 2].time);
                }
            }
            assert forall|k: int| 0 <= k < h1.len() implies (#[trigger] h1[k]).wf() by {
                if k < h1.len() - 1 {
                    assert(h0[k].wf());
                }
            }
            assert((self.count as int) * (self.den as int)
                <= 0xFFFF_FFFF_FFFF_FFFF * 0xFFFF_FFFF_FFFF_FFFF) by (nonlinear_arith)
                requires
                    0 <= self.count <= 0xFFFF_FFFF_FFFF_FFFF,
                    0 <= self.den <= 0xFFFF_FFFF_FFFF_FFFF;
            assert((self.capacity as int) * (self.num as int)
                <= 0xFFFF_FFFF_FFFF_FFFF * 0xFFFF_FFFF_FFFF_FFFF) by (nonlinear_arith)
                requires
                    0 <= self.capacity <= 0xFFFF_FFFF_FFFF_FFFF,
                    0 <= self.num <= 0xFFFF_FFFF_FFFF_FFFF;
        }
        // capacity schedule: grow when the ideal size catches up
        if (self.count as u128) * (self.den as u128) >= (self.capacity as u128) * (self.num as u128) {
            self.capacity = self.capacity + 1;
        }
        self.count = self.count + 1;
        self.entries.push(PriorityEntry { point: p, cost: u128::MAX, comp: 0 });
        proof {
            self.pos@ = self.pos@.push(self.hist@.len() as int);
            self.hist@ = self.hist@.push(p);
            assert(self.points() =~= full);
            assert(self.comps() =~= fc);
            assert(self.shape());
        }
        let n: usize = self.entries.len();
        if n >= 3 {
            // the sample two positions back now has both neighbours
            self.adjust(n - 3, n - 2, n - 1);
            proof {
                assert(self.points() == full);
                assert(self.comps() == fc);
            }
        }
        proof {
            assert forall|k: int| 1 <= k <= self.entries@.len() - 2 implies self.costs()[k]
                == #[trigger] priority_of(self.points(), self.comps(), k) by {
                if k <= self.entries@.len() - 3 {
                    assert(self.costs()[k] == old(self).costs()[k]);
                    assert(self.comps()[k] == old(self).comps()[k]);
                    assert(old(self).costs()[k] == priority_of(old(self).points(), old(self).comps(), k));
                    assert(self.points()[k - 1] == old(self).points()[k - 1]);
                    assert(self.points()[k] == old(self).points()[k]);
                    assert(self.points()[k + 1] == old(self).points()[k + 1]);
                }
            }
            assert(self.inv());
        }
        if self.entries.len() == self.capacity {
            let j: usize = self.find_min_priority();
            proof {
                assert(self.points() == full);
                assert(self.comps() == fc);
                assert forall|k: int| 1 <= k < full.len() - 1 implies self.costs()[k]
                    == #[trigger] priority_of(full, fc, k) by {}
                assert(first_priority_min(full, fc, j as int));
            }
            self.reduce(j);
            proof {
                assert(self.points() == full.remove(j as int));
            }
        }
    }

    /// The converging phase: once the stream is exhausted, keep evicting
    /// the minimum-cost interior sample while its cost stays within the
    /// target error bound. The buffer never shrinks below the two
    /// anchors; the phase terminates because every eviction shrinks the
    /// buffer. A bound of `u128::MAX` converges all the way down to the
    /// two anchors.
    #[verifier::rlimit(60)]
    #[verifier::spinoff_prover]
    pub fn converge(&mut self, bound: u128)
        requires
            old(self).wf(),
        ensures
            final(self).wf(),
            final(self).history() == old(self).history(),
            final(self).cap() == old(self).cap(),
            final(self).consumed() == old(self).consumed(),
            final(self).ratio_num() == old(self).ratio_num(),
            final(self).ratio_den() == old(self).ratio_den(),
            final(self).points().len() <= old(self).points().len(),
            old(self).points().len() >= 1 ==> final(self).points().len() >= 1
                && final(self).points()[0] == old(self).points()[0]
                && final(self).points().last() == old(self).points().last(),
            old(self).points().len() >= 2 ==> final(self).points().len() >= 2,
            final(self).points().len() > 2 ==> (forall|k: int|
                1 <= k < final(self).points().len() - 1 ==> #[trigger] final(self).costs()[k]
                    > bound),
            forall|k: int|
                1 <= k <= final(self).points().len() - 2 ==> final(self).costs()[k]
                    == #[trigger] priority_of(final(self).points(), final(self).comps(), k),
            bound == u128::MAX ==> final(self).points().len() <= 2,
            old(self).points().len() <= 2 || (forall|k: int|
                1 <= k < old(self).points().len() - 1 ==> #[trigger] old(self).costs()[k]
                    > bound) ==> final(self).points() == old(self).points()
                && final(self).comps() == old(self).comps()
                && final(self).costs() == old(self).costs(),
            exists|m: Seq<int>|
                #[trigger] retain_map(
                    m,
                    final(self).points(),
                    final(self).comps(),
                    old(self).points(),
                    old(self).comps(),
                ),
    {
        let ghost pts0 = self.points();
        let ghost cs0 = self.comps();
        let ghost costs0 = self.costs();
        let ghost settled = pts0.len() <= 2 || (forall|k: int|
            1 <= k < pts0.len() - 1 ==> #[trigger] costs0[k] > bound);
        let ghost mut mm: Seq<int> = Seq::new(pts0.len(), |k: int| k);
        proof {
            assert(retain_map(mm, self.points(), self.comps(), pts0, cs0));
        }
        while self.entries.len() > 2
            invariant_except_break
                self.inv(),
                (self.entries@.len() as int) < self.cap(),
                self.history() == old(self).history(),
                self.cap() == old(self).cap(),
                self.consumed() == old(self).consumed(),
                self.ratio_num() == old(self).ratio_num(),
                self.ratio_den() == old(self).ratio_den(),
                self.points().len() <= pts0.len(),
                pts0 == old(self).points(),
                cs0 == old(self).comps(),
                pts0.len() >= 1 ==> self.points().len() >= 1 && self.points()[0] == pts0[0]
                    && self.points().last() == pts0.last(),
                pts0.len() >= 2 ==> self.points().len() >= 2,
                retain_map(mm, self.points(), self.comps(), pts0, cs0),
                settled == (pts0.len() <= 2 || (forall|k: int|
                    1 <= k < pts0.len() - 1 ==> #[trigger] costs0[k] > bound)),
                settled ==> self.points() == pts0 && self.comps() == cs0 && self.costs()
                    == costs0,
            ensures
                self.inv(),
                (self.entries@.len() as int) < self.cap(),
                self.history() == old(self).history(),
                self.cap() == old(self).cap(),
                self.consumed() == old(self).consumed(),
                self.ratio_num() == old(self).ratio_num(),
                self.ratio_den() == old(self).ratio_den(),
                self.points().len() <= pts0.len(),
                pts0.len() >= 1 ==> self.points().len() >= 1 && self.points()[0] == pts0[0]
                    && self.points().last() == pts0.last(),
                pts0.len() >= 2 ==> self.points().len() >= 2,
                retain_map(mm, self.points(), self.comps(), pts0, cs0),
                settled == (pts0.len() <= 2 || (forall|k: int|
                    1 <= k < pts0.len() - 1 ==> #[trigger] costs0[k] > bound)),
                settled ==> self.points() == pts0 && self.comps() == cs0 && self.costs()
                    == costs0,
                self.points().len() <= 2 || (forall|k: int|
                    1 <= k < self.points().len() - 1 ==> #[trigger] self.costs()[k] > bound),
            decreases self.entries@.len(),
        {
            let j: usize = self.find_min_priority();
            if self.entries[j].cost > bound {
                proof {
                    assert forall|k: int| 1 <= k < self.points().len() - 1 implies
                        #[trigger] self.costs()[k] > bound by {
                        assert(self.costs()[k] >= self.costs()[j as int]);
                    }
                }
                break;
            }
            let ghost pts_pre = self.points();
            let ghost cs_pre = self.comps();
            let ghost c_pre = self.costs()[j as int];
            proof {
                if settled {
                    assert(pts0.len() > 2);
                    assert(costs0[j as int] > bound);
                    assert(self.costs()[j as int] <= bound);
                    assert(false);
                }
            }
            self.reduce(j);
            proof {
                lemma_retain_step(mm, pts_pre, cs_pre, pts0, cs0, c_pre, j as int);
                mm = mm.remove(j as int);
            }
        }
        proof {
            if bound == u128::MAX && self.points().len() > 2 {
                assert(self.costs()[1] > u128::MAX as int);
                assert(self.entries@[1].cost as int <= u128::MAX as int);
                assert(false);
            }
        }
    }

    /// The retained samples as a plain vector.
    pub fn to_points(&self) -> (r: Vec<Point>)
        ensures
            r@ == self.points(),
    {
        let mut r: Vec<Point> = Vec::new();
        let n: usize = self.entries.len();
        let mut k: usize = 0;
        while k < n
            invariant
                n as int == self.points().len(),
                k <= n,
                r@.len() == k as int,
                forall|j: int| 0 <= j < k ==> #[trigger] r@[j] == self.points()[j],
            decreases n - k,
        {
            r.push(self.entries[k].point);
            k += 1;
        }
        proof {
            assert(r@ =~= self.points());
        }
        r
    }
}

/// The capacity after `n` samples have been consumed under the growth
/// schedule for the ratio `num / den`: it starts at four and grows by one
/// with each consumed sample whose index has caught up with the ideal
/// buffer size (samples consumed over the ratio).
pub open spec fn spec_cap_after(n: int, num: int, den: int) -> int
    decreases n,
{
    if n <= 0 {
        4
    } else {
        let c = spec_cap_after(n - 1, num, den);
        if (n - 1) * den >= c * num {
            c + 1
        } else {
            c
        }
    }
}

/// SQUISH-E-style streaming simplification: feed every sample through the
/// priority buffer under the growing capacity schedule for the ratio
/// `num / den`, then converge until every interior cost exceeds
/// `sed_error`. The result stays strictly below the final capacity of the
/// schedule; a bound of `u128::MAX` leaves exactly the two anchors; and a
/// stream that never fills the schedule and never dips below the error
/// bound passes through unchanged.
#[verifier::rlimit(100)]
#[verifier::spinoff_prover]
pub fn squish_e(points: &Vec<Point>, num: u64, den: u64, sed_error: u128) -> (r: Vec<Point>)
    requires
        points@.len() >= 2,
        points@.len() < usize::MAX - 4,
        num >= 1,
        den >= 1,
        points_wf(points@),
        times_sorted(points@),
    ensures
        is_subsequence(r@, points@),
        2 <= r@.len() <= points@.len(),
        r@.len() < spec_cap_after(points@.len() as int, num as int, den as int),
        r@[0] == points@[0],
        r@.last() == points@.last(),
        points@.len() == 2 ==> r@ == points@,
        sed_error == u128::MAX ==> r@.len() == 2,
        (sed_error < u128::MAX && (forall|i: int|
            1 <= i <= points@.len() ==> i < #[trigger] spec_cap_after(i, num as int, den as int))
            && (forall|k: int|
            1 <= k < points@.len() - 1 ==> #[trigger] spec_sed(
                points@[k - 1],
                points@[k],
                points@[k + 1],
            ) > sed_error as int)) ==> r@ == points@,
{
    let n: usize = points.len();
    let ghost full_room = forall|i: int|
        1 <= i <= points@.len() ==> i < #[trigger] spec_cap_after(i, num as int, den as int);
    let mut buf = PriorityBuffer::new(num, den);
    let mut i: usize = 0;
    while i < n
        invariant
            buf.wf(),
            buf.ratio_num() == num as int,
            buf.ratio_den() == den as int,
            n as int == points@.len(),
            n < usize::MAX - 4,
            i <= n,
            buf.consumed() == i as int,
            buf.history() == points@.take(i as int),
            buf.cap() == spec_cap_after(i as int, num as int, den as int),
            full_room == (forall|ii: int|
                1 <= ii <= n as int ==> ii < #[trigger] spec_cap_after(ii, num as int, den as int)),
            full_room ==> buf.points() == points@.take(i as int) && buf.comps() == Seq::new(
                i as nat,
                |_z: int| 0int,
            ),
            points_wf(points@),
            times_sorted(points@),
        decreases n - i,
    {
        proof {
            if i > 0 {
                assert(buf.history().last() == points@[i as int - 1]);
            }
        }
        let ghost pre = buf;
        buf.insert(points[i]);
        proof {
            assert(buf.history() =~= points@.take(i as int + 1));
            assert(buf.cap() == spec_cap_after(i as int + 1, num as int, den as int));
            if full_room {
                assert(i as int + 1 < spec_cap_after(i as int + 1, num as int, den as int));
                assert(pre.points().len() == i as int);
                assert(buf.points() =~= points@.take(i as int + 1));
                assert(buf.comps() =~= Seq::new((i + 1) as nat, |_z: int| 0int));
            }
        }
        i += 1;
    }
    let ghost quiet = sed_error < u128::MAX && (forall|k: int|
        1 <= k < points@.len() - 1 ==> #[trigger] spec_sed(
            points@[k - 1],
            points@[k],
            points@[k + 1],
        ) > sed_error as int);
    proof {
        assert(points@.take(n as int) =~= points@);
        buf.lemma_wf_shape();
        if full_room && quiet && n >= 3 {
            assert(buf.points() == points@);
            assert forall|k: int| 1 <= k < buf.points().len() - 1 implies #[trigger] buf.costs()[k]
                > sed_error by {
                assert(buf.costs()[k] == priority_of(buf.points(), buf.comps(), k));
                assert(buf.comps()[k] == 0);
                assert(spec_sed(points@[k - 1], points@[k], points@[k + 1]) > sed_error as int);
            }
        }
    }
    buf.converge(sed_error);
    let r = buf.to_points();
    proof {
        buf.lemma_wf_shape();
        if full_room && quiet {
            assert(r@ == points@);
        }
    }
    r
}

} // verus!
