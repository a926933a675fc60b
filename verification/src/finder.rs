//! The navigation mesh and its shortest-path queries.
//!
//! A `PathFinder` is the immutable triangle mesh plus its adjacency graph.
//! A query walks the graph between the triangles' representative points; the
//! contract states exactly when a route is returned: if and only if a chain
//! of adjacent triangles of acceptable cost connects the source point to a
//! triangle accepting the target, and the returned route is a cheapest one.

use vstd::prelude::*;

use crate::exclusion::ExclusionArea;
use crate::geometry::adjacent;
use crate::geometry::adjacent_tris;
use crate::geometry::dist;
use crate::geometry::dist_spec;
use crate::geometry::edge_cost;
use crate::geometry::edge_w;
use crate::geometry::rep_point;
use crate::geometry::rep_point_of;
use crate::geometry::sat_add;
use crate::geometry::MapBounds;
use crate::geometry::Point;
use crate::geometry::Rect;
use crate::geometry::Triangle;
use crate::path::PathResult;
use crate::path::PathTarget;
use crate::triangulation::tri_hi;
use crate::triangulation::tri_lo;

verus! {

/// The queryable navigation mesh: triangles, adjacency and the exclusion
/// layout it was built from.  Immutable once constructed.
pub struct PathFinder {
    pub triangles: Vec<Triangle>,
    pub neighbors: Vec<Vec<usize>>,
    pub exclusions: Vec<ExclusionArea>,
}

impl PathFinder {
    pub open spec fn tris(self) -> Seq<Triangle> {
        self.triangles@
    }

    pub open spec fn exclusions_spec(self) -> Seq<ExclusionArea> {
        self.exclusions@
    }

    /// The mesh is well-formed: triangles are in range and wound counter-
    /// clockwise, and the adjacency lists hold exactly the edge-sharing pairs.
    pub open spec fn wf(self) -> bool {
        &&& forall|i: int| 0 <= i < self.tris().len() ==> (#[trigger] self.tris()[i]).wf()
        &&& self.neighbors@.len() == self.tris().len()
        &&& forall|u: int, k: int|
            0 <= u < self.neighbors@.len() && 0 <= k < self.neighbors@[u]@.len()
                ==> (#[trigger] self.neighbors@[u]@[k]) < self.tris().len()
        &&& forall|u: int, v: int|
            0 <= u < self.tris().len() && 0 <= v < self.tris().len()
                ==> ((#[trigger] self.neighbors@[u]@.contains(v as usize))
                    <==> adjacent(self.tris()[u], self.tris()[v]))
    }

    /// A chain of pairwise-adjacent triangle indices.
    pub open spec fn is_chain(self, c: Seq<int>) -> bool {
        &&& c.len() >= 1
        &&& forall|k: int| 0 <= k < c.len() ==> 0 <= #[trigger] c[k] < self.tris().len()
        &&& forall|k: int|
            0 <= k < c.len() - 1 ==> adjacent(self.tris()[#[trigger] c[k]], self.tris()[c[k + 1]])
    }

    /// The triangle accepts the query target: it contains the target point,
    /// or its representative point is within the query's tolerance radius.
    pub open spec fn accepts(self, t: Triangle, target: PathTarget) -> bool {
        t.contains(target.location)
            || dist_spec(rep_point(t), target.location) <= target.properties.distance
    }

    /// Cost of the legs between consecutive chain triangles.
    pub open spec fn chain_cost(self, c: Seq<int>) -> int
        decreases c.len(),
    {
        if c.len() <= 1 {
            0
        } else {
            self.chain_cost(c.drop_last())
                + edge_w(rep_point(self.tris()[c[c.len() - 2]]), rep_point(self.tris()[c.last()]))
        }
    }

    /// The route's closing leg: to the target point when the final triangle
    /// contains it, otherwise the route ends at the representative point.
    pub open spec fn final_leg(self, last: int, target: PathTarget) -> int {
        if self.tris()[last].contains(target.location) {
            dist_spec(rep_point(self.tris()[last]), target.location)
        } else {
            0
        }
    }

    /// Full travel cost of a chain answering a query from `source`.
    pub open spec fn total_cost(self, source: Point, c: Seq<int>, target: PathTarget) -> int {
        dist_spec(source, rep_point(self.tris()[c[0]])) + self.chain_cost(c)
            + self.final_leg(c.last(), target)
    }

    /// The chain answers the query: it starts in a triangle holding the
    /// source point and ends in a triangle accepting the target.
    pub open spec fn valid_chain(self, source: Point, target: PathTarget, c: Seq<int>) -> bool {
        self.is_chain(c) && self.tris()[c[0]].contains(source)
            && self.accepts(self.tris()[c.last()], target)
    }

    /// The waypoints a chain yields: the source, each triangle's
    /// representative point, and the target point when it is reached exactly.
    pub open spec fn chain_waypoints(self, source: Point, c: Seq<int>, target: PathTarget) -> Seq<Point> {
        seq![source] + c.map_values(|i: int| rep_point(self.tris()[i]))
            + if self.tris()[c.last()].contains(target.location) {
                seq![target.location]
            } else {
                Seq::empty()
            }
    }

    /// The bootstrap mesh: the whole map as two fully open triangles, before
    /// any obstacle is known.
    pub fn new(bounds: &MapBounds) -> (r: PathFinder)
        requires
            bounds.wf(),
        ensures
            r.wf(),
            r.tris() == seq![tri_lo(bounds.rect()), tri_hi(bounds.rect())],
            r.exclusions_spec() == Seq::<ExclusionArea>::empty(),
    {
        let rect = Rect { min: bounds.min, max: bounds.max };
        let lo = Triangle { a: rect.min, b: Point { x: rect.max.x, y: rect.min.y }, c: rect.max };
        let hi = Triangle { a: rect.min, b: rect.max, c: Point { x: rect.min.x, y: rect.max.y } };
        let mut triangles: Vec<Triangle> = Vec::new();
        triangles.push(lo);
        triangles.push(hi);
        let mut neighbors: Vec<Vec<usize>> = Vec::new();
        let mut row0: Vec<usize> = Vec::new();
        row0.push(1);
        let mut row1: Vec<usize> = Vec::new();
        row1.push(0);
        neighbors.push(row0);
        neighbors.push(row1);
        let r = PathFinder { triangles, neighbors, exclusions: Vec::new() };
        proof {
            crate::geometry::lemma_cross_bounds(lo.a, lo.b, lo.c);
            assert(lo.area2() > 0 && hi.area2() > 0) by (nonlinear_arith)
                requires
                    lo == (Triangle { a: rect.min, b: Point { x: rect.max.x, y: rect.min.y }, c: rect.max }),
                    hi == (Triangle { a: rect.min, b: rect.max, c: Point { x: rect.min.x, y: rect.max.y } }),
                    rect.min.x < rect.max.x,
                    rect.min.y < rect.max.y;
            assert(lo.has_edge(rect.max, rect.min) && hi.has_edge(rect.min, rect.max));
            assert(adjacent(lo, hi));
            assert(adjacent(hi, lo));
            assert(r.tris() =~= seq![tri_lo(bounds.rect()), tri_hi(bounds.rect())]);
            assert(r.exclusions_spec() =~= Seq::<ExclusionArea>::empty());
            assert forall|u: int, v: int|
                0 <= u < r.tris().len() && 0 <= v < r.tris().len()
                    implies (r.neighbors@[u]@.contains(v as usize)
                        <==> adjacent(r.tris()[u], r.tris()[v])) by {
                assert(r.neighbors@[0]@ =~= seq![1usize]);
                assert(r.neighbors@[1]@ =~= seq![0usize]);
                if u == 0 && v == 1 {
                    assert(r.neighbors@[0]@[0] == 1usize);
                    assert(r.neighbors@[0]@.contains(1usize));
                }
                if u == 1 && v == 0 {
                    assert(r.neighbors@[1]@[0] == 0usize);
                    assert(r.neighbors@[1]@.contains(0usize));
                }
                if u == v {
                    assert(!adjacent(r.tris()[u], r.tris()[v]));
                    assert forall|k: int| 0 <= k < r.neighbors@[u]@.len()
                        implies r.neighbors@[u]@[k] != (v as usize) by {}
                }
            }
        }
        r
    }

    /// Builds the mesh from a triangulation: records, for every triangle,
    /// exactly the triangles it shares an edge with.
    pub fn from_triangles(triangles: Vec<Triangle>, exclusions: Vec<ExclusionArea>) -> (r: PathFinder)
        requires
            forall|i: int| 0 <= i < triangles@.len() ==> (#[trigger] triangles@[i]).wf(),
        ensures
            r.wf(),
            r.tris() == triangles@,
            r.exclusions_spec() == exclusions@,
    {
        let n = triangles.len();
        let mut neighbors: Vec<Vec<usize>> = Vec::new();
        let mut u: usize = 0;
        while u < n
            invariant
                n == triangles@.len(),
                u <= n,
                neighbors@.len() == u,
                forall|i: int| 0 <= i < n ==> (#[trigger] triangles@[i]).wf(),
                forall|u2: int, k: int|
                    0 <= u2 < u && 0 <= k < neighbors@[u2]@.len()
                        ==> (#[trigger] neighbors@[u2]@[k]) < n,
                forall|u2: int, v: int|
                    0 <= u2 < u && 0 <= v < n
                        ==> ((#[trigger] neighbors@[u2]@.contains(v as usize))
                            <==> adjacent(triangles@[u2], triangles@[v])),
            decreases n - u,
        {
            let mut row: Vec<usize> = Vec::new();
            let mut v: usize = 0;
            while v < n
                invariant
                    n == triangles@.len(),
                    u < n,
                    v <= n,
                    forall|k: int| 0 <= k < row@.len() ==> (#[trigger] row@[k]) < v,
                    forall|v2: int|
                        0 <= v2 < v
                            ==> (row@.contains(v2 as usize)
                                <==> adjacent(triangles@[u as int], #[trigger] triangles@[v2])),
                decreases n - v,
            {
                if adjacent_tris(&triangles[u], &triangles[v]) {
                    let ghost pre = row@;
                    row.push(v);
                    proof {
                        assert(row@[pre.len() as int] == v);
                        assert forall|v2: int| 0 <= v2 < v + 1
                            implies (row@.contains(v2 as usize)
                                <==> adjacent(triangles@[u as int], triangles@[v2])) by {
                            if row@.contains(v2 as usize) {
                                let k = choose|k: int| 0 <= k < row@.len() && row@[k] == v2 as usize;
                                if k < pre.len() {
                                    assert(pre.contains(v2 as usize));
                                }
                            }
                            if v2 < v && adjacent(triangles@[u as int], triangles@[v2]) {
                                assert(pre.contains(v2 as usize));
                                let k = choose|k: int| 0 <= k < pre.len() && pre[k] == v2 as usize;
                                assert(row@[k] == v2 as usize);
                            }
                        }
                    }
                } else {
                    proof {
                        assert forall|v2: int| 0 <= v2 < v + 1
                            implies (row@.contains(v2 as usize)
                                <==> adjacent(triangles@[u as int], triangles@[v2])) by {
                            if row@.contains(v2 as usize) {
                                let k = choose|k: int| 0 <= k < row@.len() && row@[k] == v2 as usize;
                                assert(row@[k] < v);
                            }
                        }
                    }
                }
                v += 1;
            }
            neighbors.push(row);
            u += 1;
        }
        PathFinder { triangles, neighbors, exclusions }
    }

    /// The cost of entering the mesh at triangle `v` from `source`.
    pub open spec fn leg0(self, source: Point, v: int) -> int {
        dist_spec(source, rep_point(self.tris()[v]))
    }

    /// The crossing cost between triangles `u` and `v`.
    pub open spec fn w(self, u: int, v: int) -> int {
        edge_w(rep_point(self.tris()[u]), rep_point(self.tris()[v]))
    }

    /// Every finite tentative distance is justified: it is the cost of
    /// entering at a source triangle, or dominated through some neighbour.
    pub open spec fn d_sound(self, source: Point, d: Seq<u64>) -> bool {
        forall|v: int|
            0 <= v < d.len() && (#[trigger] d[v]) < u64::MAX ==> {
                (self.tris()[v].contains(source) && d[v] as int == self.leg0(source, v))
                || exists|u: int|
                    0 <= u < d.len() && adjacent(self.tris()[u], self.tris()[v]) && d[u] < u64::MAX
                        && d[u] as int + self.w(u, v) <= d[v] as int
            }
    }

    /// Source triangles never cost more than their entry leg.
    pub open spec fn d_start_ub(self, source: Point, d: Seq<u64>) -> bool {
        forall|v: int|
            0 <= v < d.len() && (#[trigger] self.tris()[v]).contains(source)
                ==> d[v] as int <= self.leg0(source, v)
    }

    /// Relaxation fixpoint: no edge can improve any tentative distance.
    pub open spec fn d_closed(self, d: Seq<u64>) -> bool {
        forall|u: int, v: int|
            0 <= u < d.len() && 0 <= v < d.len()
                && adjacent(self.tris()[u], self.tris()[v])
                ==> (#[trigger] d[v]) as int <= (#[trigger] d[u]) as int + self.w(u, v)
    }

    spec fn pass_closed_upto(self, d: Seq<u64>, u: int, k: int) -> bool {
        &&& forall|u2: int, k2: int|
            0 <= u2 < u && 0 <= k2 < self.neighbors@[u2]@.len()
                ==> (#[trigger] d[self.neighbors@[u2]@[k2] as int]) as int
                    <= d[u2] as int + self.w(u2, self.neighbors@[u2]@[k2] as int)
        &&& forall|k2: int|
            0 <= k2 < k
                ==> (#[trigger] d[self.neighbors@[u]@[k2] as int]) as int
                    <= d[u] as int + self.w(u, self.neighbors@[u]@[k2] as int)
    }

    /// One relaxation sweep over every adjacency edge.
    #[verifier::rlimit(100)]
    #[verifier::spinoff_prover]
    fn relax_pass(&self, d: &mut Vec<u64>, source: Point) -> (changed: bool)
        requires
            self.wf(),
            source.wf(),
            old(d)@.len() == self.tris().len(),
            self.d_sound(source, old(d)@),
            self.d_start_ub(source, old(d)@),
        ensures
            final(d)@.len() == old(d)@.len(),
            self.d_sound(source, final(d)@),
            self.d_start_ub(source, final(d)@),
            forall|v: int| 0 <= v < old(d)@.len() ==> #[trigger] final(d)@[v] <= old(d)@[v],
            changed ==> exists|v: int| 0 <= v < old(d)@.len() && #[trigger] final(d)@[v] < old(d)@[v],
            !changed ==> final(d)@ == old(d)@ && self.d_closed(final(d)@),
    {
        let ghost d0 = d@;
        let ghost mut wit: int = 0;
        let n = self.triangles.len();
        let mut changed = false;
        let mut u: usize = 0;
        while u < n
            invariant
                self.wf(),
                source.wf(),
                n == self.tris().len(),
                u <= n,
                d@.len() == n,
                self.d_sound(source, d@),
                self.d_start_ub(source, d@),
                forall|v: int| 0 <= v < n ==> #[trigger] d@[v] <= d0[v],
                changed ==> 0 <= wit < n && d@[wit] < d0[wit],
                !changed ==> d@ == d0 && self.pass_closed_upto(d@, u as int, 0),
            decreases n - u,
        {
            let du = d[u];
            let mut k: usize = 0;
            let nbs_len = self.neighbors[u].len();
            if du < u64::MAX {
                let rpu = rep_point_of(&self.triangles[u]);
                while k < nbs_len
                    invariant
                        self.wf(),
                        source.wf(),
                        n == self.tris().len(),
                        u < n,
                        d@.len() == n,
                        nbs_len == self.neighbors@[u as int]@.len(),
                        k <= nbs_len,
                        du == d@[u as int],
                        du < u64::MAX,
                        rpu == rep_point(self.tris()[u as int]),
                        rpu.wf(),
                        self.d_sound(source, d@),
                        self.d_start_ub(source, d@),
                        forall|v2: int| 0 <= v2 < n ==> #[trigger] d@[v2] <= d0[v2],
                        changed ==> 0 <= wit < n && d@[wit] < d0[wit],
                        !changed ==> d@ == d0 && self.pass_closed_upto(d@, u as int, k as int),
                    decreases nbs_len - k,
                {
                    let v = self.neighbors[u][k];
                    proof {
                        assert(self.neighbors@[u as int]@[k as int] < self.tris().len());
                        assert(self.neighbors@[u as int]@[k as int] == (v as int) as usize);
                        assert(self.neighbors@[u as int]@.contains((v as int) as usize));
                        assert(adjacent(self.tris()[u as int], self.tris()[v as int]));
                        assert(self.tris()[u as int] != self.tris()[v as int]);
                        assert(v != u);
                    }
                    let rpv = rep_point_of(&self.triangles[v]);
                    let wuv = edge_cost(rpu, rpv);
                    let nd = sat_add(du, wuv);
                    if nd < d[v] {
                        let ghost dpre = d@;
                        d[v] = nd;
                        changed = true;
                        proof {
                            wit = v as int;
                            assert(d@ == dpre.update(v as int, nd));
                            assert(d@[wit] < d0[wit]);
                            assert(nd as int == du as int + self.w(u as int, v as int));
                            assert forall|v2: int|
                                0 <= v2 < d@.len() && (#[trigger] d@[v2]) < u64::MAX implies {
                                    (self.tris()[v2].contains(source)
                                        && d@[v2] as int == self.leg0(source, v2))
                                    || exists|u2: int|
                                        0 <= u2 < d@.len()
                                            && adjacent(self.tris()[u2], self.tris()[v2])
                                            && d@[u2] < u64::MAX
                                            && d@[u2] as int + self.w(u2, v2) <= d@[v2] as int
                                } by {
                                if v2 == v as int {
                                    assert(adjacent(self.tris()[u as int], self.tris()[v2]));
                                    assert(d@[u as int] < u64::MAX);
                                    assert(d@[u as int] as int + self.w(u as int, v2) <= d@[v2] as int);
                                } else {
                                    assert(d@[v2] == dpre[v2]);
                                    if dpre[v2] < u64::MAX {
                                        if !(self.tris()[v2].contains(source)
                                            && dpre[v2] as int == self.leg0(source, v2)) {
                                            let u2 = choose|u2: int|
                                                0 <= u2 < dpre.len()
                                                    && adjacent(self.tris()[u2], self.tris()[v2])
                                                    && dpre[u2] < u64::MAX
                                                    && dpre[u2] as int + self.w(u2, v2) <= dpre[v2] as int;
                                            assert(d@[u2] <= dpre[u2]);
                                            assert(d@[u2] as int + self.w(u2, v2) <= d@[v2] as int);
                                        }
                                    }
                                }
                            }
                        }
                    }
                    k += 1;
                }
            } else {
                proof {
                    if !changed {
                        assert forall|k2: int| 0 <= k2 < self.neighbors@[u as int]@.len()
                            implies (#[trigger] d@[self.neighbors@[u as int]@[k2] as int]) as int
                                <= d@[u as int] as int + self.w(u as int, self.neighbors@[u as int]@[k2] as int) by {
                            assert(d@[self.neighbors@[u as int]@[k2] as int] <= u64::MAX);
                            assert(self.w(u as int, self.neighbors@[u as int]@[k2] as int) >= 1);
                        }
                    }
                }
                proof {
                    assert(!changed ==> self.pass_closed_upto(d@, u as int, self.neighbors@[u as int]@.len() as int));
                }
            }
            u += 1;
            proof {
                if !changed {
                    assert(self.pass_closed_upto(d@, u - 1, self.neighbors@[u - 1]@.len() as int));
                    assert forall|u2: int, k2: int|
                        0 <= u2 < u && 0 <= k2 < self.neighbors@[u2]@.len()
                            implies (#[trigger] d@[self.neighbors@[u2]@[k2] as int]) as int
                                <= d@[u2] as int + self.w(u2, self.neighbors@[u2]@[k2] as int) by {}
                }
            }
        }
        proof {
            if changed {
                assert(0 <= wit < d@.len() && d@[wit] < d0[wit]);
            }
            if !changed {
                assert forall|u2: int, v2: int|
                    0 <= u2 < d@.len() && 0 <= v2 < d@.len()
                        && adjacent(self.tris()[u2], self.tris()[v2])
                        implies (#[trigger] d@[v2]) as int <= (#[trigger] d@[u2]) as int + self.w(u2, v2) by {
                    assert(self.neighbors@[u2]@.contains(v2 as usize));
                    let k2 = choose|k2: int|
                        0 <= k2 < self.neighbors@[u2]@.len() && self.neighbors@[u2]@[k2] == v2 as usize;
                    assert(d@[self.neighbors@[u2]@[k2] as int] as int
                        <= d@[u2] as int + self.w(u2, self.neighbors@[u2]@[k2] as int));
                }
            }
        }
        changed
    }

    /// The links of a backwards reconstruction stack: each entry sits one
    /// exact crossing above its successor.
    pub open spec fn rev_links(self, d: Seq<u64>, crev: Seq<int>) -> bool {
        &&& forall|k: int| 0 <= k < crev.len() ==> 0 <= #[trigger] crev[k] < self.tris().len()
        &&& forall|k: int|
            0 <= k < crev.len() - 1
                ==> adjacent(self.tris()[#[trigger] crev[k + 1]], self.tris()[crev[k]])
                    && d[crev[k]] as int == d[crev[k + 1]] as int + self.w(crev[k + 1], crev[k])
    }

    /// Sets up the tentative distances: the entry cost for every triangle
    /// holding the source, unreached for every other triangle.
    fn init_dists(&self, source: Point) -> (d: Vec<u64>)
        requires
            self.wf(),
            source.wf(),
        ensures
            d@.len() == self.tris().len(),
            self.d_sound(source, d@),
            self.d_start_ub(source, d@),
    {
        let n = self.triangles.len();
        let mut d: Vec<u64> = Vec::new();
        let mut i: usize = 0;
        while i < n
            invariant
                self.wf(),
                source.wf(),
                n == self.tris().len(),
                i <= n,
                d@.len() == i,
                forall|v: int|
                    0 <= v < i && (#[trigger] self.tris()[v]).contains(source)
                        ==> d@[v] as int == self.leg0(source, v) && d@[v] < u64::MAX,
                forall|v: int|
                    0 <= v < i && !(#[trigger] self.tris()[v]).contains(source)
                        ==> d@[v] == u64::MAX,
            decreases n - i,
        {
            if self.triangles[i].contains_point(source) {
                let rp = rep_point_of(&self.triangles[i]);
                let l0 = dist(source, rp);
                d.push(l0);
            } else {
                d.push(u64::MAX);
            }
            i += 1;
        }
        d
    }

    /// Runs relaxation sweeps until no tentative distance can improve.
    #[verifier::spinoff_prover]
    fn settle(&self, d: &mut Vec<u64>, source: Point)
        requires
            self.wf(),
            source.wf(),
            old(d)@.len() == self.tris().len(),
            self.d_sound(source, old(d)@),
            self.d_start_ub(source, old(d)@),
        ensures
            final(d)@.len() == self.tris().len(),
            self.d_sound(source, final(d)@),
            self.d_start_ub(source, final(d)@),
            self.d_closed(final(d)@),
    {
        loop
            invariant_except_break
                self.wf(),
                source.wf(),
                d@.len() == self.tris().len(),
                self.d_sound(source, d@),
                self.d_start_ub(source, d@),
            ensures
                d@.len() == self.tris().len(),
                self.d_sound(source, d@),
                self.d_start_ub(source, d@),
                self.d_closed(d@),
            decreases sum_d(d@),
        {
            let ghost dpre = d@;
            let changed = self.relax_pass(d, source);
            if !changed {
                break;
            }
            proof {
                let v = choose|v: int| 0 <= v < dpre.len() && d@[v] < dpre[v];
                lemma_sum_lt(d@, dpre, v);
                lemma_sum_nonneg(d@);
            }
        }
    }

    /// Whether the triangle accepts the target, on machine integers.
    fn accepts_tri(&self, i: usize, target: PathTarget) -> (r: bool)
        requires
            self.wf(),
            i < self.tris().len(),
            target.location_spec().wf(),
        ensures
            r == self.accepts(self.tris()[i as int], target),
    {
        let contains = self.triangles[i].contains_point(target.location);
        let rp = rep_point_of(&self.triangles[i]);
        let dr = dist(rp, target.location);
        contains || dr <= target.properties.distance
    }

    /// Picks the accepting triangle with the least settled total cost.
    /// Returns the best index and its score; a score of `u64::MAX` means no
    /// accepting triangle was reached.
    #[verifier::spinoff_prover]
    fn select_best(&self, d: &Vec<u64>, target: PathTarget) -> (r: (usize, u64))
        requires
            self.wf(),
            target.location_spec().wf(),
            d@.len() == self.tris().len(),
        ensures
            r.1 < u64::MAX ==> r.0 < self.tris().len() && d@[r.0 as int] < u64::MAX
                && self.accepts(self.tris()[r.0 as int], target)
                && r.1 as int == d@[r.0 as int] as int + self.final_leg(r.0 as int, target),
            forall|j: int|
                0 <= j < self.tris().len() && self.accepts(#[trigger] self.tris()[j], target)
                    && d@[j] < u64::MAX
                    ==> d@[j] as int + self.final_leg(j, target) >= r.1 as int,
    {
        let n = self.triangles.len();
        let mut best: usize = 0;
        let mut best_score: u64 = u64::MAX;
        let mut i: usize = 0;
        while i < n
            invariant
                self.wf(),
                target.location_spec().wf(),
                n == self.tris().len(),
                i <= n,
                d@.len() == n,
                best_score < u64::MAX ==> best < n && d@[best as int] < u64::MAX
                    && self.accepts(self.tris()[best as int], target)
                    && best_score as int
                        == d@[best as int] as int + self.final_leg(best as int, target),
                forall|j: int|
                    0 <= j < i && self.accepts(#[trigger] self.tris()[j], target)
                        && d@[j] < u64::MAX
                        ==> d@[j] as int + self.final_leg(j, target) >= best_score as int,
            decreases n - i,
        {
            let contains = self.triangles[i].contains_point(target.location);
            let rp = rep_point_of(&self.triangles[i]);
            let dr = dist(rp, target.location);
            let accept = contains || dr <= target.properties.distance;
            if accept {
                let di = d[i];
                if di < u64::MAX {
                    let leg: u64 = if contains { dr } else { 0 };
                    proof {
                        assert(leg as int == self.final_leg(i as int, target));
                    }
                    let score = sat_add(di, leg);
                    if score < best_score {
                        best = i;
                        best_score = score;
                    }
                }
            }
            i += 1;
        }
        (best, best_score)
    }

    /// Walks the settled distances backwards from `best` to a source
    /// triangle, yielding the chain in reverse order.
    #[verifier::spinoff_prover]
    fn reconstruct(&self, d: &Vec<u64>, source: Point, best: usize) -> (chain_rev: Vec<usize>)
        requires
            self.wf(),
            source.wf(),
            d@.len() == self.tris().len(),
            self.d_sound(source, d@),
            self.d_closed(d@),
            best < self.tris().len(),
            d@[best as int] < u64::MAX,
        ensures
            chain_rev@.len() >= 1,
            chain_rev@[0] == best,
            forall|k: int| 0 <= k < chain_rev@.len() ==> (#[trigger] chain_rev@[k]) < self.tris().len(),
            self.rev_links(d@, chain_rev@.map_values(|x: usize| x as int)),
            self.tris()[chain_rev@.last() as int].contains(source),
            d@[chain_rev@.last() as int] as int == self.leg0(source, chain_rev@.last() as int),
    {
        let n = self.triangles.len();
        let mut chain_rev: Vec<usize> = Vec::new();
        chain_rev.push(best);
        let mut cur: usize = best;
        loop
            invariant_except_break
                self.wf(),
                source.wf(),
                n == self.tris().len(),
                d@.len() == n,
                self.d_sound(source, d@),
                self.d_closed(d@),
                cur < n,
                d@[cur as int] < u64::MAX,
                chain_rev@.len() >= 1,
                chain_rev@[0] == best,
                chain_rev@.last() == cur,
                forall|k: int| 0 <= k < chain_rev@.len() ==> (#[trigger] chain_rev@[k]) < n,
                self.rev_links(d@, chain_rev@.map_values(|x: usize| x as int)),
            ensures
                cur < n,
                chain_rev@.len() >= 1,
                chain_rev@[0] == best,
                chain_rev@.last() == cur,
                forall|k: int| 0 <= k < chain_rev@.len() ==> (#[trigger] chain_rev@[k]) < n,
                self.rev_links(d@, chain_rev@.map_values(|x: usize| x as int)),
                self.tris()[cur as int].contains(source),
                d@[cur as int] as int == self.leg0(source, cur as int),
            decreases d@[cur as int],
        {
            let rpc = rep_point_of(&self.triangles[cur]);
            let dcur = d[cur];
            if self.triangles[cur].contains_point(source) && dcur == dist(source, rpc) {
                break;
            }
            let mut k: usize = 0;
            let mut pred: usize = 0;
            let mut got = false;
            let nbs_len = self.neighbors[cur].len();
            while k < nbs_len
                invariant
                    self.wf(),
                    source.wf(),
                    n == self.tris().len(),
                    d@.len() == n,
                    cur < n,
                    dcur == d@[cur as int],
                    dcur < u64::MAX,
                    rpc == rep_point(self.tris()[cur as int]),
                    rpc.wf(),
                    nbs_len == self.neighbors@[cur as int]@.len(),
                    k <= nbs_len,
                    got ==> pred < n && d@[pred as int] < u64::MAX
                        && adjacent(self.tris()[pred as int], self.tris()[cur as int])
                        && d@[cur as int] as int
                            == d@[pred as int] as int + self.w(pred as int, cur as int),
                    !got ==> forall|k2: int|
                        0 <= k2 < k
                            ==> !(d@[self.neighbors@[cur as int]@[k2] as int] < u64::MAX
                                && d@[#[trigger] self.neighbors@[cur as int]@[k2] as int] as int
                                    + self.w(self.neighbors@[cur as int]@[k2] as int, cur as int)
                                    == d@[cur as int] as int),
                decreases nbs_len - k,
            {
                let u = self.neighbors[cur][k];
                proof {
                    assert(self.neighbors@[cur as int]@[k as int] == (u as int) as usize);
                    assert(self.neighbors@[cur as int]@.contains((u as int) as usize));
                    assert(adjacent(self.tris()[cur as int], self.tris()[u as int]));
                    assert(adjacent(self.tris()[u as int], self.tris()[cur as int]));
                }
                if !got && d[u] < u64::MAX {
                    let wu = edge_cost(rep_point_of(&self.triangles[u]), rpc);
                    if sat_add(d[u], wu) == dcur {
                        got = true;
                        pred = u;
                    }
                }
                k += 1;
            }
            proof {
                if !got {
                    assert(!(self.tris()[cur as int].contains(source)
                        && d@[cur as int] as int == self.leg0(source, cur as int)));
                    let u2 = choose|u2: int|
                        0 <= u2 < d@.len() && adjacent(self.tris()[u2], self.tris()[cur as int])
                            && d@[u2] < u64::MAX
                            && d@[u2] as int + self.w(u2, cur as int) <= d@[cur as int] as int;
                    assert(d@[cur as int] as int <= d@[u2] as int + self.w(u2, cur as int));
                    assert(d@[u2] as int + self.w(u2, cur as int) == d@[cur as int] as int);
                    assert(self.neighbors@[cur as int]@.contains(u2 as usize));
                    let k2 = choose|k2: int|
                        0 <= k2 < self.neighbors@[cur as int]@.len()
                            && self.neighbors@[cur as int]@[k2] == u2 as usize;
                    assert(d@[self.neighbors@[cur as int]@[k2] as int] as int
                        + self.w(self.neighbors@[cur as int]@[k2] as int, cur as int)
                        == d@[cur as int] as int);
                    assert(false);
                }
                assert(self.w(pred as int, cur as int) >= 1);
                assert(d@[pred as int] < d@[cur as int]);
            }
            let ghost pre_seq = chain_rev@;
            chain_rev.push(pred);
            cur = pred;
            proof {
                let crev = chain_rev@.map_values(|x: usize| x as int);
                let crev_pre = pre_seq.map_values(|x: usize| x as int);
                assert(crev =~= crev_pre.push(pred as int));
                assert forall|k2: int|
                    0 <= k2 < crev.len() - 1
                        implies adjacent(self.tris()[#[trigger] crev[k2 + 1]], self.tris()[crev[k2]])
                            && d@[crev[k2]] as int
                                == d@[crev[k2 + 1]] as int + self.w(crev[k2 + 1], crev[k2]) by {
                    if k2 < crev.len() - 2 {
                        assert(crev[k2] == crev_pre[k2] && crev[k2 + 1] == crev_pre[k2 + 1]);
                    } else {
                        assert(crev[k2] == crev_pre.last() && crev[k2 + 1] == pred as int);
                    }
                }
            }
        }
        chain_rev
    }

    /// No valid chain for this query beats `score`.
    #[verifier::spinoff_prover]
    proof fn lemma_no_cheaper_chain(self, source: Point, target: PathTarget, d: Seq<u64>, score: u64)
        requires
            self.wf(),
            source.wf(),
            target.location_spec().wf(),
            d.len() == self.tris().len(),
            self.d_sound(source, d),
            self.d_start_ub(source, d),
            self.d_closed(d),
            forall|j: int|
                0 <= j < self.tris().len() && self.accepts(#[trigger] self.tris()[j], target)
                    && d[j] < u64::MAX
                    ==> d[j] as int + self.final_leg(j, target) >= score as int,
        ensures
            forall|c: Seq<int>|
                (#[trigger] self.valid_chain(source, target, c))
                    ==> self.total_cost(source, c, target) >= score as int
                        || self.total_cost(source, c, target) >= u64::MAX as int,
    {
        assert forall|c: Seq<int>| #[trigger] self.valid_chain(source, target, c)
            implies self.total_cost(source, c, target) >= score as int
                || self.total_cost(source, c, target) >= u64::MAX as int by {
            lemma_chain_lower_bound(self, source, d, c);
            let last = c.last();
            assert(0 <= last < self.tris().len());
            if self.tris()[last].contains(target.location_spec()) {
                crate::geometry::lemma_rep_point_wf(self.tris()[last]);
                crate::geometry::lemma_dist_spec_nonneg(
                    rep_point(self.tris()[last]), target.location_spec());
            }
            assert(self.final_leg(last, target) >= 0);
            if d[last] < u64::MAX {
                assert(d[last] as int + self.final_leg(last, target) >= score as int);
                assert(self.total_cost(source, c, target)
                    >= d[last] as int + self.final_leg(last, target));
            } else {
                assert(self.total_cost(source, c, target) >= u64::MAX as int);
            }
        }
    }

    /// Answers a path query against this mesh.
    ///
    /// Returns a route exactly when a chain of adjacent triangles leads from
    /// a triangle holding `source` to a triangle accepting `target` within
    /// the query's cost budget (and within the engine's cost range); the
    /// returned route is a cheapest such chain.
    #[verifier::spinoff_prover]
    #[verifier::rlimit(100)]
    pub fn find_path(&self, source: Point, target: PathTarget) -> (r: Option<PathResult>)
        requires
            self.wf(),
            source.wf(),
            target.location_spec().wf(),
        ensures
            match r {
                Some(res) => {
                    &&& res.target_spec() == target
                    &&& res.cost_spec() <= target.properties_spec().max_cost_spec()
                    &&& exists|c: Seq<int>|
                        (#[trigger] self.valid_chain(source, target, c))
                            && self.total_cost(source, c, target) == res.cost_spec() as int
                            && res.waypoints_spec() == self.chain_waypoints(source, c, target)
                    &&& forall|c: Seq<int>|
                        (#[trigger] self.valid_chain(source, target, c))
                            ==> self.total_cost(source, c, target) >= res.cost_spec() as int
                },
                None => forall|c: Seq<int>|
                    (#[trigger] self.valid_chain(source, target, c))
                        ==> self.total_cost(source, c, target)
                            > target.properties_spec().max_cost_spec() as int
                            || self.total_cost(source, c, target) >= u64::MAX as int,
            },
    {
        let budget = target.properties.max_cost;
        let mut d = self.init_dists(source);
        self.settle(&mut d, source);
        let (best, best_score) = self.select_best(&d, target);
        if best_score == u64::MAX || best_score > budget {
            proof {
                self.lemma_no_cheaper_chain(source, target, d@, best_score);
                assert forall|c: Seq<int>| #[trigger] self.valid_chain(source, target, c)
                    implies self.total_cost(source, c, target) > budget as int
                        || self.total_cost(source, c, target) >= u64::MAX as int by {
                    if self.total_cost(source, c, target) < u64::MAX as int {
                        assert(self.total_cost(source, c, target) >= best_score as int);
                    }
                }
            }
            return None;
        }
        let chain_rev = self.reconstruct(&d, source, best);
        let m = chain_rev.len();
        let mut chain_fwd: Vec<usize> = Vec::new();
        let mut k: usize = 0;
        while k < m
            invariant
                m == chain_rev@.len(),
                k <= m,
                chain_fwd@.len() == k,
                forall|j: int| 0 <= j < k ==> #[trigger] chain_fwd@[j] == chain_rev@[m - 1 - j],
            decreases m - k,
        {
            chain_fwd.push(chain_rev[m - 1 - k]);
            k += 1;
        }
        let mut wp: Vec<Point> = Vec::new();
        wp.push(source);
        let mut k: usize = 0;
        while k < m
            invariant
                self.wf(),
                m == chain_rev@.len(),
                chain_fwd@.len() == m,
                forall|j: int| 0 <= j < m ==> #[trigger] chain_fwd@[j] == chain_rev@[m - 1 - j],
                forall|j: int| 0 <= j < m ==> (#[trigger] chain_rev@[j]) < self.tris().len(),
                k <= m,
                wp@.len() == k + 1,
                wp@[0] == source,
                forall|j: int|
                    0 <= j < k ==> #[trigger] wp@[j + 1] == rep_point(self.tris()[chain_fwd@[j] as int]),
            decreases m - k,
        {
            proof {
                assert(chain_fwd@[k as int] == chain_rev@[m - 1 - k as int]);
            }
            wp.push(rep_point_of(&self.triangles[chain_fwd[k]]));
            k += 1;
        }
        let contains_end = self.triangles[best].contains_point(target.location);
        if contains_end {
            wp.push(target.location);
        }
        let res = crate::path::PathResult::new(target, wp, best_score);
        proof {
            let crev = chain_rev@.map_values(|x: usize| x as int);
            let c = crev.reverse();
            lemma_rev_chain(*self, d@, crev);
            assert(c[0] == crev.last() && c.last() == crev[0]);
            assert(c[0] == chain_rev@.last() as int && c.last() == best as int);
            assert(self.tris()[c[0]].contains(source));
            assert(self.accepts(self.tris()[c.last()], target));
            assert(self.valid_chain(source, target, c));
            assert(d@[best as int] as int
                == d@[chain_rev@.last() as int] as int + self.chain_cost(c));
            assert(d@[chain_rev@.last() as int] as int == self.leg0(source, chain_rev@.last() as int));
            assert(self.total_cost(source, c, target)
                == self.leg0(source, c[0]) + self.chain_cost(c) + self.final_leg(c.last(), target));
            assert(self.total_cost(source, c, target) == res.cost_spec() as int);
            let cmap = c.map_values(|i2: int| rep_point(self.tris()[i2]));
            assert forall|j: int| 0 <= j < c.len()
                implies #[trigger] cmap[j] == rep_point(self.tris()[chain_fwd@[j] as int]) by {
                assert(c[j] == crev[crev.len() - 1 - j]);
                assert(chain_fwd@[j] == chain_rev@[m - 1 - j]);
            }
            assert(res.waypoints_spec() =~= self.chain_waypoints(source, c, target));
            self.lemma_no_cheaper_chain(source, target, d@, best_score);
            assert forall|c2: Seq<int>| #[trigger] self.valid_chain(source, target, c2)
                implies self.total_cost(source, c2, target) >= res.cost_spec() as int by {
                if self.total_cost(source, c2, target) >= u64::MAX as int {
                    assert(res.cost_spec() < u64::MAX);
                }
            }
        }
        Some(res)
    }
}

/// Any chain from the source is at least as costly as the settled distance
/// of its final triangle.
proof fn lemma_chain_lower_bound(f: PathFinder, source: Point, d: Seq<u64>, c: Seq<int>)
    requires
        f.wf(),
        d.len() == f.tris().len(),
        f.d_sound(source, d),
        f.d_start_ub(source, d),
        f.d_closed(d),
        f.is_chain(c),
        f.tris()[c[0]].contains(source),
    ensures
        d[c.last()] as int <= f.leg0(source, c[0]) + f.chain_cost(c),
    decreases c.len(),
{
    if c.len() == 1 {
        assert(f.chain_cost(c) == 0);
        assert(d[c[0]] as int <= f.leg0(source, c[0]));
    } else {
        let c2 = c.drop_last();
        assert(c2.len() == c.len() - 1);
        assert(forall|k: int| 0 <= k < c2.len() ==> c2[k] == c[k]);
        assert(f.is_chain(c2));
        lemma_chain_lower_bound(f, source, d, c2);
        let p = c[c.len() - 2];
        let q = c.last();
        assert(c2.last() == p);
        assert(adjacent(f.tris()[p], f.tris()[q]));
        assert(d[q] as int <= d[p] as int + f.w(p, q));
        assert(f.chain_cost(c) == f.chain_cost(c2) + f.w(p, q));
    }
}

/// A backwards reconstruction stack, reversed, is a chain whose cost is the
/// exact gap between the settled distances of its two ends.
proof fn lemma_rev_chain(f: PathFinder, d: Seq<u64>, crev: Seq<int>)
    requires
        f.wf(),
        d.len() == f.tris().len(),
        crev.len() >= 1,
        f.rev_links(d, crev),
    ensures
        f.is_chain(crev.reverse()),
        d[crev[0]] as int == d[crev.last()] as int + f.chain_cost(crev.reverse()),
    decreases crev.len(),
{
    let c = crev.reverse();
    assert(c.len() == crev.len());
    assert(forall|j: int| 0 <= j < c.len() ==> #[trigger] c[j] == crev[c.len() - 1 - j]);
    if crev.len() == 1 {
        assert(f.chain_cost(c) == 0);
        assert(c[0] == crev[0]);
        assert(f.is_chain(c));
    } else {
        let crev2 = crev.skip(1);
        assert(crev2.len() == crev.len() - 1);
        assert(forall|j: int| 0 <= j < crev2.len() ==> #[trigger] crev2[j] == crev[j + 1]);
        assert(f.rev_links(d, crev2)) by {
            assert forall|k: int|
                0 <= k < crev2.len() - 1
                    implies adjacent(f.tris()[#[trigger] crev2[k + 1]], f.tris()[crev2[k]])
                        && d[crev2[k]] as int
                            == d[crev2[k + 1]] as int + f.w(crev2[k + 1], crev2[k]) by {
                assert(crev2[k] == crev[k + 1] && crev2[k + 1] == crev[k + 2]);
            }
        }
        lemma_rev_chain(f, d, crev2);
        let c2 = crev2.reverse();
        assert(c2 =~= c.drop_last());
        assert(c.last() == crev[0] && c[c.len() - 2] == crev[1]);
        assert(adjacent(f.tris()[crev[1]], f.tris()[crev[0]]));
        assert(d[crev[0]] as int == d[crev[1]] as int + f.w(crev[1], crev[0]));
        assert(f.chain_cost(c) == f.chain_cost(c2) + f.w(crev[1], crev[0])) by {
            assert(crate::geometry::dist2(rep_point(f.tris()[crev[1]]), rep_point(f.tris()[crev[0]]))
                == crate::geometry::dist2(rep_point(f.tris()[crev[0]]), rep_point(f.tris()[crev[1]])))
                by (nonlinear_arith);
        }
        assert(crev2.last() == crev.last());
        assert(d[crev[1]] as int == d[crev.last()] as int + f.chain_cost(c2));
        assert(f.is_chain(c)) by {
            assert forall|k: int|
                0 <= k < c.len() - 1
                    implies adjacent(f.tris()[#[trigger] c[k]], f.tris()[c[k + 1]]) by {
                assert(c[k] == crev[c.len() - 1 - k] && c[k + 1] == crev[c.len() - 2 - k]);
                let j = c.len() - 2 - k;
                assert(adjacent(f.tris()[crev[j + 1]], f.tris()[crev[j]]));
            }
        }
    }
}

/// Total of all tentative distances; the relaxation loop's termination
/// measure.
pub open spec fn sum_d(d: Seq<u64>) -> int
    decreases d.len(),
{
    if d.len() == 0 {
        0
    } else {
        sum_d(d.drop_last()) + d.last()
    }
}

proof fn lemma_sum_nonneg(d: Seq<u64>)
    ensures
        sum_d(d) >= 0,
    decreases d.len(),
{
    if d.len() > 0 {
        lemma_sum_nonneg(d.drop_last());
    }
}

/// Lowering one entry while raising none lowers the total.
proof fn lemma_sum_lt(d1: Seq<u64>, d2: Seq<u64>, w: int)
    requires
        d1.len() == d2.len(),
        forall|v: int| 0 <= v < d1.len() ==> #[trigger] d1[v] <= d2[v],
        0 <= w < d1.len(),
        d1[w] < d2[w],
    ensures
        sum_d(d1) < sum_d(d2),
    decreases d1.len(),
{
    let e1 = d1.drop_last();
    let e2 = d2.drop_last();
    assert(forall|v: int| 0 <= v < e1.len() ==> #[trigger] e1[v] <= e2[v]);
    if w == d1.len() - 1 {
        lemma_sum_le(e1, e2);
    } else {
        lemma_sum_lt(e1, e2, w);
    }
}

proof fn lemma_sum_le(d1: Seq<u64>, d2: Seq<u64>)
    requires
        d1.len() == d2.len(),
        forall|v: int| 0 <= v < d1.len() ==> #[trigger] d1[v] <= d2[v],
    ensures
        sum_d(d1) <= sum_d(d2),
    decreases d1.len(),
{
    if d1.len() > 0 {
        let e1 = d1.drop_last();
        let e2 = d2.drop_last();
        assert(forall|v: int| 0 <= v < e1.len() ==> #[trigger] e1[v] <= e2[v]);
        lemma_sum_le(e1, e2);
    }
}

} // verus!
