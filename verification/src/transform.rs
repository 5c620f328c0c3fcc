//! Hough transform accumulator for line detection: voting and peak extraction.

use vstd::prelude::*;

verus! {

/// A peak of the accumulator: its (theta, rho) bin and its votes.
#[derive(Debug, Clone, Copy, PartialEq, Eq, Structural)]
pub struct HoughPeak {
    pub theta_bin: usize,
    pub rho_bin: usize,
    pub votes: usize,
}

/// Vote counts over `theta_bins` x `rho_bins` cells.
pub struct HoughAccumulator {
    theta_bins: usize,
    rho_bins: usize,
    accumulator: Vec<Vec<usize>>,
}

/// (tt, rr) lies within distance `rad` of (t, r) in both coordinates.
pub open spec fn in_window(t: int, r: int, rad: int, tt: int, rr: int) -> bool {
    t - rad <= tt <= t + rad && r - rad <= rr <= r + rad
}

/// `a` comes before `b` in the peak order: more votes first, equal votes in (theta, rho) order.
pub open spec fn peak_before(a: HoughPeak, b: HoughPeak) -> bool {
    a.votes > b.votes || (a.votes == b.votes && (a.theta_bin < b.theta_bin || (a.theta_bin == b.theta_bin
        && a.rho_bin < b.rho_bin)))
}

/// (t, r) precedes (t2, r2) in row-major order of the accumulator.
pub open spec fn cell_before(t: int, r: int, t2: int, r2: int) -> bool {
    t < t2 || (t == t2 && r < r2)
}

impl HoughAccumulator {
    /// Number of theta bins.
    pub closed spec fn spec_theta_bins(&self) -> usize {
        self.theta_bins
    }

    /// Number of rho bins.
    pub closed spec fn spec_rho_bins(&self) -> usize {
        self.rho_bins
    }

    /// Votes of cell (t, r).
    pub closed spec fn cell(&self, t: int, r: int) -> usize {
        self.accumulator@[t]@[r]
    }

    /// One row of `rho_bins` counts per theta bin.
    pub closed spec fn wf(&self) -> bool {
        &&& self.accumulator@.len() == self.theta_bins
        &&& forall|t: int| 0 <= t < self.theta_bins ==> (#[trigger] self.accumulator@[t])@.len() == self.rho_bins
    }

    /// (t, r) is a cell of the accumulator.
    pub open spec fn in_range(&self, t: int, r: int) -> bool {
        0 <= t < self.spec_theta_bins() && 0 <= r < self.spec_rho_bins()
    }

    /// (t, r) has more than `threshold` votes and no cell within distance `rad` has more.
    pub open spec fn is_peak(&self, threshold: usize, rad: usize, t: int, r: int) -> bool {
        &&& self.in_range(t, r)
        &&& self.cell(t, r) > threshold
        &&& forall|tt: int, rr: int|
            self.in_range(tt, rr) && in_window(t, r, rad as int, tt, rr) && !(tt == t && rr == r)
                ==> #[trigger] self.cell(tt, rr) <= self.cell(t, r)
    }

    /// An accumulator with every count zero.
    pub fn new(theta_bins: usize, rho_bins: usize) -> (acc: Self)
        ensures
            acc.wf(),
            acc.spec_theta_bins() == theta_bins,
            acc.spec_rho_bins() == rho_bins,
            forall|t: int, r: int| acc.in_range(t, r) ==> #[trigger] acc.cell(t, r) == 0,
    {
        let mut accumulator: Vec<Vec<usize>> = Vec::new();
        let mut t: usize = 0;
        while t < theta_bins
            invariant
                0 <= t <= theta_bins,
                accumulator@.len() == t,
                forall|k: int| 0 <= k < t ==> (#[trigger] accumulator@[k])@.len() == rho_bins,
                forall|k: int, r: int| 0 <= k < t && 0 <= r < rho_bins ==> #[trigger] accumulator@[k]@[r] == 0,
            decreases theta_bins - t,
        {
            let mut row: Vec<usize> = Vec::new();
            let mut r: usize = 0;
            while r < rho_bins
                invariant
                    0 <= r <= rho_bins,
                    row@.len() == r,
                    forall|k: int| 0 <= k < r ==> #[trigger] row@[k] == 0,
                decreases rho_bins - r,
            {
                row.push(0);
                r += 1;
            }
            accumulator.push(row);
            t += 1;
        }
        HoughAccumulator { theta_bins, rho_bins, accumulator }
    }

    pub fn theta_bins(&self) -> (n: usize)
        ensures
            n == self.spec_theta_bins(),
    {
        self.theta_bins
    }

    pub fn rho_bins(&self) -> (n: usize)
        ensures
            n == self.spec_rho_bins(),
    {
        self.rho_bins
    }

    /// Get the accumulator value at (theta_bin, rho_bin).
    pub fn get(&self, theta_bin: usize, rho_bin: usize) -> (v: usize)
        requires
            self.wf(),
            self.in_range(theta_bin as int, rho_bin as int),
        ensures
            v == self.cell(theta_bin as int, rho_bin as int),
    {
        self.accumulator[theta_bin][rho_bin]
    }

    /// Add one vote to cell (theta_bin, rho_bin) when `rho_bin` is a valid bin; otherwise
    /// nothing changes.
    pub fn vote(&mut self, theta_bin: usize, rho_bin: isize)
        requires
            old(self).wf(),
            theta_bin < old(self).spec_theta_bins(),
            0 <= rho_bin < old(self).spec_rho_bins() ==> old(self).cell(theta_bin as int, rho_bin as int) < usize::MAX,
        ensures
            final(self).wf(),
            final(self).spec_theta_bins() == old(self).spec_theta_bins(),
            final(self).spec_rho_bins() == old(self).spec_rho_bins(),
            forall|t: int, r: int| old(self).in_range(t, r) ==> #[trigger] final(self).cell(t, r) == if t == theta_bin && r == rho_bin && 0 <= rho_bin
                < old(self).spec_rho_bins() {
                old(self).cell(t, r) + 1
            } else {
                old(self).cell(t, r) as int
            },
    {
        if rho_bin >= 0 && (rho_bin as usize) < self.rho_bins {
            let r = rho_bin as usize;
            let v = self.accumulator[theta_bin][r];
            self.accumulator[theta_bin].set(r, v + 1);
        }
    }

    /// Whether no cell within distance `rad` of (t, r) has more than `votes` votes.
    fn is_local_max(&self, t: usize, r: usize, rad: usize, votes: usize) -> (m: bool)
        requires
            self.wf(),
            self.in_range(t as int, r as int),
            t + rad + 1 <= usize::MAX,
            r + rad + 1 <= usize::MAX,
        ensures
            m == forall|tt: int, rr: int|
                self.in_range(tt, rr) && in_window(t as int, r as int, rad as int, tt, rr) && !(tt == t && rr == r)
                    ==> #[trigger] self.cell(tt, rr) <= votes,
    {
        let t_start = if t >= rad { t - rad } else { 0 };
        let t_end = if t + rad + 1 < self.theta_bins { t + rad + 1 } else { self.theta_bins };
        let r_start = if r >= rad { r - rad } else { 0 };
        let r_end = if r + rad + 1 < self.rho_bins { r + rad + 1 } else { self.rho_bins };
        let mut is_max = true;
        let mut tt = t_start;
        while tt < t_end && is_max
            invariant
                self.wf(),
                self.in_range(t as int, r as int),
                t_start <= tt <= t_end,
                t_end <= self.spec_theta_bins(),
                r_end <= self.spec_rho_bins(),
                t_start == if t >= rad { t - rad } else { 0 },
                t_end == if t + rad + 1 < self.spec_theta_bins() { t + rad + 1 } else { self.spec_theta_bins() as int },
                r_start == if r >= rad { r - rad } else { 0 },
                r_end == if r + rad + 1 < self.spec_rho_bins() { r + rad + 1 } else { self.spec_rho_bins() as int },
                is_max ==> forall|a: int, b: int|
                    self.in_range(a, b) && in_window(t as int, r as int, rad as int, a, b) && !(a == t && b == r) && a < tt
                        ==> #[trigger] self.cell(a, b) <= votes,
                !is_max ==> exists|a: int, b: int|
                    self.in_range(a, b) && in_window(t as int, r as int, rad as int, a, b) && !(a == t && b == r)
                        && #[trigger] self.cell(a, b) > votes,
            decreases t_end - tt,
        {
            let mut rr = r_start;
            while rr < r_end && is_max
                invariant
                    self.wf(),
                    self.in_range(t as int, r as int),
                    t_start <= tt < t_end,
                    r_start <= rr <= r_end,
                    t_end <= self.spec_theta_bins(),
                    r_end <= self.spec_rho_bins(),
                    t_start == if t >= rad { t - rad } else { 0 },
                    t_end == if t + rad + 1 < self.spec_theta_bins() { t + rad + 1 } else { self.spec_theta_bins() as int },
                    r_start == if r >= rad { r - rad } else { 0 },
                    r_end == if r + rad + 1 < self.spec_rho_bins() { r + rad + 1 } else { self.spec_rho_bins() as int },
                    is_max ==> forall|a: int, b: int|
                        self.in_range(a, b) && in_window(t as int, r as int, rad as int, a, b) && !(a == t && b == r)
                            && (a < tt || (a == tt && b < rr)) ==> #[trigger] self.cell(a, b) <= votes,
                    !is_max ==> exists|a: int, b: int|
                        self.in_range(a, b) && in_window(t as int, r as int, rad as int, a, b) && !(a == t && b == r)
                            && #[trigger] self.cell(a, b) > votes,
                decreases r_end - rr,
            {
                if !(tt == t && rr == r) && self.accumulator[tt][rr] > votes {
                    is_max = false;
                    proof {
                        assert(self.cell(tt as int, rr as int) > votes);
                    }
                }
                rr += 1;
            }
            tt += 1;
        }
        is_max
    }

    /// Extract the cells with more than `threshold` votes and no more-voted cell within
    /// `nms_radius`, ordered by votes (descending), equal votes in (theta, rho) order.
    pub fn peaks(&self, threshold: usize, nms_radius: usize) -> (lines: Vec<HoughPeak>)
        requires
            self.wf(),
            forall|t: int, r: int| #[trigger] self.in_range(t, r) && self.cell(t, r) > threshold ==> t + nms_radius + 1
                <= usize::MAX && r + nms_radius + 1 <= usize::MAX,
        ensures
            forall|i: int| 0 <= i < lines@.len() ==> {
                &&& self.is_peak(threshold, nms_radius, (#[trigger] lines@[i]).theta_bin as int, lines@[i].rho_bin as int)
                &&& lines@[i].votes == self.cell(lines@[i].theta_bin as int, lines@[i].rho_bin as int)
            },
            forall|t: int, r: int| #[trigger] self.is_peak(threshold, nms_radius, t, r) ==> exists|i: int|
                0 <= i < lines@.len() && (#[trigger] lines@[i]).theta_bin == t && lines@[i].rho_bin == r,
            forall|i: int, j: int| 0 <= i < j < lines@.len() ==> peak_before(#[trigger] lines@[i], #[trigger] lines@[j]),
            // The same, with the suppression window and the order written out.
            forall|i: int| #![trigger lines@[i]] 0 <= i < lines@.len() ==> {
                &&& self.in_range(lines@[i].theta_bin as int, lines@[i].rho_bin as int)
                &&& lines@[i].votes == self.cell(lines@[i].theta_bin as int, lines@[i].rho_bin as int)
                &&& lines@[i].votes > threshold
                &&& forall|tt: int, rr: int| self.in_range(tt, rr)
                    && lines@[i].theta_bin - nms_radius <= tt <= lines@[i].theta_bin + nms_radius
                    && lines@[i].rho_bin - nms_radius <= rr <= lines@[i].rho_bin + nms_radius
                    ==> #[trigger] self.cell(tt, rr) <= lines@[i].votes
            },
            forall|t: int, r: int| #![trigger self.cell(t, r)] self.in_range(t, r) && self.cell(t, r) > threshold
                && (forall|tt: int, rr: int| self.in_range(tt, rr) && t - nms_radius <= tt <= t + nms_radius
                    && r - nms_radius <= rr <= r + nms_radius ==> #[trigger] self.cell(tt, rr) <= self.cell(t, r))
                ==> exists|i: int| 0 <= i < lines@.len() && (#[trigger] lines@[i]).theta_bin == t && lines@[i].rho_bin == r,
            forall|i: int, j: int| 0 <= i < j < lines@.len() ==> {
                ||| (#[trigger] lines@[i]).votes > (#[trigger] lines@[j]).votes
                ||| (lines@[i].votes == lines@[j].votes && lines@[i].theta_bin < lines@[j].theta_bin)
                ||| (lines@[i].votes == lines@[j].votes && lines@[i].theta_bin == lines@[j].theta_bin
                    && lines@[i].rho_bin < lines@[j].rho_bin)
            },
    {
        let mut lines: Vec<HoughPeak> = Vec::new();
        let mut t: usize = 0;
        while t < self.theta_bins
            invariant
                self.wf(),
                forall|t: int, r: int| #[trigger] self.in_range(t, r) && self.cell(t, r) > threshold ==> t + nms_radius + 1
                    <= usize::MAX && r + nms_radius + 1 <= usize::MAX,
                0 <= t <= self.spec_theta_bins(),
                forall|i: int| 0 <= i < lines@.len() ==> {
                    &&& self.is_peak(threshold, nms_radius, (#[trigger] lines@[i]).theta_bin as int, lines@[i].rho_bin as int)
                    &&& lines@[i].votes == self.cell(lines@[i].theta_bin as int, lines@[i].rho_bin as int)
                    &&& cell_before(lines@[i].theta_bin as int, lines@[i].rho_bin as int, t as int, 0)
                },
                forall|a: int, b: int| #[trigger] self.is_peak(threshold, nms_radius, a, b) && cell_before(a, b, t as int, 0)
                    ==> exists|i: int| 0 <= i < lines@.len() && (#[trigger] lines@[i]).theta_bin == a && lines@[i].rho_bin == b,
                forall|i: int, j: int| 0 <= i < j < lines@.len() ==> peak_before(#[trigger] lines@[i], #[trigger] lines@[j]),
            decreases self.spec_theta_bins() - t,
        {
            let mut r: usize = 0;
            while r < self.rho_bins
                invariant
                    self.wf(),
                    forall|t: int, r: int| #[trigger] self.in_range(t, r) && self.cell(t, r) > threshold ==> t + nms_radius + 1
                        <= usize::MAX && r + nms_radius + 1 <= usize::MAX,
                    0 <= t < self.spec_theta_bins(),
                    0 <= r <= self.spec_rho_bins(),
                    forall|i: int| 0 <= i < lines@.len() ==> {
                        &&& self.is_peak(threshold, nms_radius, (#[trigger] lines@[i]).theta_bin as int, lines@[i].rho_bin as int)
                        &&& lines@[i].votes == self.cell(lines@[i].theta_bin as int, lines@[i].rho_bin as int)
                        &&& cell_before(lines@[i].theta_bin as int, lines@[i].rho_bin as int, t as int, r as int)
                    },
                    forall|a: int, b: int| #[trigger] self.is_peak(threshold, nms_radius, a, b) && cell_before(a, b, t as int, r as int)
                        ==> exists|i: int| 0 <= i < lines@.len() && (#[trigger] lines@[i]).theta_bin == a && lines@[i].rho_bin == b,
                    forall|i: int, j: int| 0 <= i < j < lines@.len() ==> peak_before(#[trigger] lines@[i], #[trigger] lines@[j]),
                decreases self.spec_rho_bins() - r,
            {
                let votes = self.accumulator[t][r];
                proof {
                    assert(self.in_range(t as int, r as int));
                }
                let ghost L0 = lines@;
                if votes > threshold && self.is_local_max(t, r, nms_radius, votes) {
                    let p = HoughPeak { theta_bin: t, rho_bin: r, votes };
                    let mut pos: usize = 0;
                    while pos < lines.len() && lines[pos].votes >= votes
                        invariant
                            lines@ == L0,
                            0 <= pos <= L0.len(),
                            forall|i: int| 0 <= i < pos ==> (#[trigger] L0[i]).votes >= votes,
                        decreases L0.len() - pos,
                    {
                        pos += 1;
                    }
                    proof {
                        assert(pos < L0.len() ==> L0[pos as int].votes < votes);
                        assert forall|i: int| pos <= i < L0.len() implies (#[trigger] L0[i]).votes < votes by {
                            if i > pos {
                                assert(peak_before(L0[pos as int], L0[i]));
                            }
                        }
                    }
                    lines.insert(pos, p);
                    proof {
                        let L = lines@;
                        assert(L == L0.insert(pos as int, p));
                        assert(self.is_peak(threshold, nms_radius, t as int, r as int));
                        assert forall|i: int| 0 <= i < L.len() implies {
                            &&& self.is_peak(threshold, nms_radius, (#[trigger] L[i]).theta_bin as int, L[i].rho_bin as int)
                            &&& L[i].votes == self.cell(L[i].theta_bin as int, L[i].rho_bin as int)
                            &&& cell_before(L[i].theta_bin as int, L[i].rho_bin as int, t as int, r + 1)
                        } by {
                            if i < pos {
                                assert(L[i] == L0[i]);
                            } else if i > pos {
                                assert(L[i] == L0[i - 1]);
                            }
                        }
                        assert forall|a: int, b: int| #[trigger] self.is_peak(threshold, nms_radius, a, b) && cell_before(a, b, t as int, r + 1)
                            implies exists|i: int| 0 <= i < L.len() && (#[trigger] L[i]).theta_bin == a && L[i].rho_bin == b by {
                            if a == t && b == r {
                                assert(L[pos as int] == p);
                            } else {
                                assert(cell_before(a, b, t as int, r as int));
                                let k = choose|k: int| 0 <= k < L0.len() && (#[trigger] L0[k]).theta_bin == a && L0[k].rho_bin == b;
                                if k < pos {
                                    assert(L[k] == L0[k]);
                                } else {
                                    assert(L[k + 1] == L0[k]);
                                }
                            }
                        }
                        assert forall|i: int, j: int| 0 <= i < j < L.len() implies peak_before(#[trigger] L[i], #[trigger] L[j]) by {
                            if j < pos {
                                assert(L[i] == L0[i] && L[j] == L0[j]);
                            } else if j == pos {
                                assert(L[i] == L0[i]);
                                assert(cell_before(L0[i].theta_bin as int, L0[i].rho_bin as int, t as int, r as int));
                            } else if i < pos {
                                assert(L[i] == L0[i] && L[j] == L0[j - 1]);
                            } else if i == pos {
                                assert(L[j] == L0[j - 1]);
                            } else {
                                assert(L[i] == L0[i - 1] && L[j] == L0[j - 1]);
                            }
                        }
                    }
                } else {
                    proof {
                        assert forall|a: int, b: int| #[trigger] self.is_peak(threshold, nms_radius, a, b) && cell_before(a, b, t as int, r + 1)
                            implies exists|i: int| 0 <= i < lines@.len() && (#[trigger] lines@[i]).theta_bin == a && lines@[i].rho_bin == b by {
                            if a == t && b == r {
                                assert(self.cell(a, b) == votes);
                            } else {
                                assert(cell_before(a, b, t as int, r as int));
                            }
                        }
                    }
                }
                r += 1;
            }
            t += 1;
        }
        proof {
            let rad = nms_radius as int;
            assert forall|i: int| #![trigger lines@[i]] 0 <= i < lines@.len() implies {
                &&& self.in_range(lines@[i].theta_bin as int, lines@[i].rho_bin as int)
                &&& lines@[i].votes == self.cell(lines@[i].theta_bin as int, lines@[i].rho_bin as int)
                &&& lines@[i].votes > threshold
                &&& forall|tt: int, rr: int| self.in_range(tt, rr)
                    && lines@[i].theta_bin - nms_radius <= tt <= lines@[i].theta_bin + nms_radius
                    && lines@[i].rho_bin - nms_radius <= rr <= lines@[i].rho_bin + nms_radius
                    ==> #[trigger] self.cell(tt, rr) <= lines@[i].votes
            } by {
                let t0 = lines@[i].theta_bin as int;
                let r0 = lines@[i].rho_bin as int;
                assert(self.is_peak(threshold, nms_radius, t0, r0));
                assert forall|tt: int, rr: int| self.in_range(tt, rr) && t0 - rad <= tt <= t0 + rad
                    && r0 - rad <= rr <= r0 + rad implies #[trigger] self.cell(tt, rr) <= lines@[i].votes by {
                    assert(in_window(t0, r0, rad, tt, rr));
                }
            }
            assert forall|t0: int, r0: int| #![trigger self.cell(t0, r0)] self.in_range(t0, r0) && self.cell(t0, r0) > threshold
                && (forall|tt: int, rr: int| self.in_range(tt, rr) && t0 - nms_radius <= tt <= t0 + nms_radius
                    && r0 - nms_radius <= rr <= r0 + nms_radius ==> #[trigger] self.cell(tt, rr) <= self.cell(t0, r0))
                implies exists|i: int| 0 <= i < lines@.len() && (#[trigger] lines@[i]).theta_bin == t0 && lines@[i].rho_bin == r0 by {
                assert forall|tt: int, rr: int| self.in_range(tt, rr) && in_window(t0, r0, rad, tt, rr) && !(tt == t0 && rr == r0)
                    implies #[trigger] self.cell(tt, rr) <= self.cell(t0, r0) by {}
                assert(self.is_peak(threshold, nms_radius, t0, r0));
            }
            assert forall|i: int, j: int| 0 <= i < j < lines@.len() implies {
                ||| (#[trigger] lines@[i]).votes > (#[trigger] lines@[j]).votes
                ||| (lines@[i].votes == lines@[j].votes && lines@[i].theta_bin < lines@[j].theta_bin)
                ||| (lines@[i].votes == lines@[j].votes && lines@[i].theta_bin == lines@[j].theta_bin
                    && lines@[i].rho_bin < lines@[j].rho_bin)
            } by {
                assert(peak_before(lines@[i], lines@[j]));
            }
        }
        lines
    }
}

} // verus!
