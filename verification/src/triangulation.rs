//! Constrained triangulation of the free region.
//!
//! The triangulator cuts the map bounds into a grid whose cut lines carry
//! every edge of every (clipped) exclusion rectangle, drops each grid cell
//! that lies inside an exclusion, and splits each remaining cell into two
//! triangles along its diagonal.  The output is pinned down to a canonical
//! description, so rebuilding from an unchanged obstacle snapshot provably
//! yields the identical triangulation.

use vstd::prelude::*;

use crate::exclusion::ExclusionArea;
use crate::geometry::{MapBounds, Point, Rect, Triangle};

verus! {

/// The intersection of `r` with the bounding rectangle `b`.
pub open spec fn clip_rect(b: Rect, r: Rect) -> Rect {
    Rect {
        min: Point {
            x: if r.min.x > b.min.x { r.min.x } else { b.min.x },
            y: if r.min.y > b.min.y { r.min.y } else { b.min.y },
        },
        max: Point {
            x: if r.max.x < b.max.x { r.max.x } else { b.max.x },
            y: if r.max.y < b.max.y { r.max.y } else { b.max.y },
        },
    }
}

/// Every exclusion clipped to the bounds, with empty intersections dropped.
pub open spec fn clip_all(b: Rect, excls: Seq<ExclusionArea>) -> Seq<Rect>
    decreases excls.len(),
{
    if excls.len() == 0 {
        Seq::empty()
    } else {
        let rest = clip_all(b, excls.drop_last());
        let c = clip_rect(b, excls.last().rect);
        if c.min.x < c.max.x && c.min.y < c.max.y {
            rest.push(c)
        } else {
            rest
        }
    }
}

/// Every rectangle that survives clipping lies inside the bounds and has a
/// non-empty interior.
pub proof fn lemma_clip_all_in_bounds(b: Rect, excls: Seq<ExclusionArea>)
    ensures
        forall|j: int| 0 <= j < clip_all(b, excls).len() ==> {
            let c = #[trigger] clip_all(b, excls)[j];
            b.min.x <= c.min.x && c.max.x <= b.max.x
                && b.min.y <= c.min.y && c.max.y <= b.max.y
                && c.min.x < c.max.x && c.min.y < c.max.y
        },
    decreases excls.len(),
{
    if excls.len() > 0 {
        lemma_clip_all_in_bounds(b, excls.drop_last());
        let rest = clip_all(b, excls.drop_last());
        let c = clip_rect(b, excls.last().rect);
        assert forall|j: int| 0 <= j < clip_all(b, excls).len() implies {
            let e = #[trigger] clip_all(b, excls)[j];
            b.min.x <= e.min.x && e.max.x <= b.max.x
                && b.min.y <= e.min.y && e.max.y <= b.max.y
                && e.min.x < e.max.x && e.min.y < e.max.y
        } by {
            if c.min.x < c.max.x && c.min.y < c.max.y {
                assert(clip_all(b, excls) == rest.push(c));
                if j < rest.len() {
                    assert(clip_all(b, excls)[j] == rest[j]);
                } else {
                    assert(clip_all(b, excls)[j] == c);
                }
            } else {
                assert(clip_all(b, excls) == rest);
            }
        }
    }
}

pub open spec fn sorted_strict(s: Seq<i64>) -> bool {
    forall|i: int, j: int| 0 <= i < j < s.len() ==> s[i] < s[j]
}

pub open spec fn has_val(s: Seq<i64>, v: i64) -> bool {
    exists|k: int| 0 <= k < s.len() && s[k] == v
}

/// `v` is a vertical cut line: a bounds edge or an edge of a clipped exclusion.
pub open spec fn is_x_cut(b: Rect, rects: Seq<Rect>, v: i64) -> bool {
    v == b.min.x || v == b.max.x
        || exists|k: int| 0 <= k < rects.len() && ((#[trigger] rects[k]).min.x == v || rects[k].max.x == v)
}

/// `v` is a horizontal cut line.
pub open spec fn is_y_cut(b: Rect, rects: Seq<Rect>, v: i64) -> bool {
    v == b.min.y || v == b.max.y
        || exists|k: int| 0 <= k < rects.len() && ((#[trigger] rects[k]).min.y == v || rects[k].max.y == v)
}

/// `s` is the canonical cut sequence for a cut predicate: strictly sorted and
/// holding exactly the cut values.
pub open spec fn is_x_cuts(s: Seq<i64>, b: Rect, rects: Seq<Rect>) -> bool {
    sorted_strict(s) && forall|v: i64| has_val(s, v) <==> is_x_cut(b, rects, v)
}

pub open spec fn is_y_cuts(s: Seq<i64>, b: Rect, rects: Seq<Rect>) -> bool {
    sorted_strict(s) && forall|v: i64| has_val(s, v) <==> is_y_cut(b, rects, v)
}

/// The grid cell between cut lines `i`/`i+1` and `j`/`j+1`.
pub open spec fn grid_cell(xs: Seq<i64>, ys: Seq<i64>, i: int, j: int) -> Rect {
    Rect {
        min: Point { x: xs[i], y: ys[j] },
        max: Point { x: xs[i + 1], y: ys[j + 1] },
    }
}

/// No clipped exclusion swallows the cell.
pub open spec fn cell_free(c: Rect, rects: Seq<Rect>) -> bool {
    forall|k: int| 0 <= k < rects.len() ==> !(#[trigger] rects[k]).covers(c)
}

/// The lower-right triangle of a cell, wound counter-clockwise.
pub open spec fn tri_lo(c: Rect) -> Triangle {
    Triangle { a: c.min, b: Point { x: c.max.x, y: c.min.y }, c: c.max }
}

/// The upper-left triangle of a cell, wound counter-clockwise.
pub open spec fn tri_hi(c: Rect) -> Triangle {
    Triangle { a: c.min, b: c.max, c: Point { x: c.min.x, y: c.max.y } }
}

pub open spec fn cell_tris(c: Rect, rects: Seq<Rect>) -> Seq<Triangle> {
    if cell_free(c, rects) {
        seq![tri_lo(c), tri_hi(c)]
    } else {
        Seq::empty()
    }
}

/// Triangles of the first `j` cells of grid column band `i`.
pub open spec fn row_tris(xs: Seq<i64>, ys: Seq<i64>, rects: Seq<Rect>, i: int, j: int) -> Seq<Triangle>
    decreases j,
{
    if j <= 0 {
        Seq::empty()
    } else {
        row_tris(xs, ys, rects, i, j - 1) + cell_tris(grid_cell(xs, ys, i, j - 1), rects)
    }
}

/// Triangles of the first `i` column bands of the grid.
pub open spec fn grid_tris_upto(xs: Seq<i64>, ys: Seq<i64>, rects: Seq<Rect>, i: int) -> Seq<Triangle>
    decreases i,
{
    if i <= 0 {
        Seq::empty()
    } else {
        grid_tris_upto(xs, ys, rects, i - 1) + row_tris(xs, ys, rects, i - 1, ys.len() - 1)
    }
}

pub open spec fn grid_tris(xs: Seq<i64>, ys: Seq<i64>, rects: Seq<Rect>) -> Seq<Triangle> {
    grid_tris_upto(xs, ys, rects, xs.len() - 1)
}

/// `tris` is the canonical triangulation of the bounds minus the exclusions.
pub open spec fn is_triangulation(bounds: MapBounds, excls: Seq<ExclusionArea>, tris: Seq<Triangle>) -> bool {
    exists|xs: Seq<i64>, ys: Seq<i64>|
        #![all_triggers]
        is_x_cuts(xs, bounds.rect(), clip_all(bounds.rect(), excls))
            && is_y_cuts(ys, bounds.rect(), clip_all(bounds.rect(), excls))
            && tris == grid_tris(xs, ys, clip_all(bounds.rect(), excls))
}

fn rect_covers(a: &Rect, c: &Rect) -> (r: bool)
    ensures
        r == a.covers(*c),
{
    a.min.x <= c.min.x && c.max.x <= a.max.x && a.min.y <= c.min.y && c.max.y <= a.max.y
}

/// Clips every exclusion to the bounds, dropping empty intersections.
fn clip_exclusions(b: Rect, exclusions: &Vec<ExclusionArea>) -> (r: Vec<Rect>)
    ensures
        r@ == clip_all(b, exclusions@),
{
    let mut r: Vec<Rect> = Vec::new();
    let mut i: usize = 0;
    proof {
        assert(exclusions@.take(0) =~= Seq::<ExclusionArea>::empty());
    }
    while i < exclusions.len()
        invariant
            i <= exclusions@.len(),
            r@ == clip_all(b, exclusions@.take(i as int)),
        decreases exclusions@.len() - i,
    {
        let e = exclusions[i];
        let min_x: i64 = if e.rect.min.x > b.min.x { e.rect.min.x } else { b.min.x };
        let min_y: i64 = if e.rect.min.y > b.min.y { e.rect.min.y } else { b.min.y };
        let max_x: i64 = if e.rect.max.x < b.max.x { e.rect.max.x } else { b.max.x };
        let max_y: i64 = if e.rect.max.y < b.max.y { e.rect.max.y } else { b.max.y };
        let c = Rect { min: Point { x: min_x, y: min_y }, max: Point { x: max_x, y: max_y } };
        proof {
            assert(c == clip_rect(b, exclusions@[i as int].rect));
            assert(exclusions@.take(i + 1).drop_last() =~= exclusions@.take(i as int));
            assert(exclusions@.take(i + 1).last() == exclusions@[i as int]);
        }
        if c.min.x < c.max.x && c.min.y < c.max.y {
            r.push(c);
        }
        i += 1;
    }
    proof {
        assert(exclusions@.take(exclusions@.len() as int) =~= exclusions@);
    }
    r
}

/// Inserts `v` into a strictly sorted cut sequence, keeping it sorted and
/// duplicate-free.
fn insert_cut(cuts: &mut Vec<i64>, v: i64)
    requires
        sorted_strict(old(cuts)@),
    ensures
        sorted_strict(final(cuts)@),
        forall|w: i64| has_val(final(cuts)@, w) <==> has_val(old(cuts)@, w) || w == v,
{
    let mut idx: usize = 0;
    while idx < cuts.len() && cuts[idx] < v
        invariant
            idx <= cuts@.len(),
            sorted_strict(cuts@),
            cuts@ == old(cuts)@,
            forall|k: int| 0 <= k < idx ==> cuts@[k] < v,
        decreases cuts@.len() - idx,
    {
        idx += 1;
    }
    if idx < cuts.len() && cuts[idx] == v {
        proof {
            assert(has_val(cuts@, v));
        }
        return;
    }
    let ghost pre = cuts@;
    cuts.insert(idx, v);
    proof {
        assert(cuts@ == pre.insert(idx as int, v));
        assert forall|i: int, j: int| 0 <= i < j < cuts@.len() implies cuts@[i] < cuts@[j] by {
            if j < idx {
                assert(cuts@[i] == pre[i] && cuts@[j] == pre[j]);
            } else if i >= idx + 1 {
                assert(cuts@[i] == pre[i - 1] && cuts@[j] == pre[j - 1]);
            } else if j == idx {
                assert(cuts@[i] == pre[i] && cuts@[j] == v);
            } else {
                // i <= idx < j
                if i < idx {
                    assert(cuts@[i] == pre[i] && cuts@[i] < v);
                } else {
                    assert(cuts@[i] == v);
                }
                assert(cuts@[j] == pre[j - 1]);
                if idx < pre.len() {
                    assert(pre[idx as int] != v && pre[idx as int] >= v);
                    assert(pre[j - 1] >= pre[idx as int]);
                }
            }
        }
        assert forall|w: i64| has_val(cuts@, w) implies has_val(pre, w) || w == v by {
            let k = choose|k: int| 0 <= k < cuts@.len() && cuts@[k] == w;
            if k < idx {
                assert(pre[k] == w);
            } else if k > idx {
                assert(pre[k - 1] == w);
            }
        }
        assert forall|w: i64| has_val(pre, w) implies has_val(cuts@, w) by {
            let k = choose|k: int| 0 <= k < pre.len() && pre[k] == w;
            if k < idx {
                assert(cuts@[k] == w);
            } else {
                assert(cuts@[k + 1] == w);
            }
        }
        assert(cuts@[idx as int] == v);
        assert(has_val(cuts@, v));
    }
}

/// Triangulates the free region: the map bounds minus the exclusion areas.
///
/// The result is the canonical grid triangulation, so it is a function of the
/// bounds and the exclusion set alone.
pub fn triangulate(bounds: &MapBounds, exclusions: &Vec<ExclusionArea>) -> (r: Vec<Triangle>)
    requires
        bounds.wf(),
    ensures
        is_triangulation(*bounds, exclusions@, r@),
        forall|k: int| 0 <= k < r@.len() ==> (#[trigger] r@[k]).wf(),
{
    let b = Rect { min: bounds.min, max: bounds.max };
    let clipped = clip_exclusions(b, exclusions);
    let ghost crects = clipped@;

    let mut xs: Vec<i64> = Vec::new();
    xs.push(bounds.min.x);
    xs.push(bounds.max.x);
    let mut ys: Vec<i64> = Vec::new();
    ys.push(bounds.min.y);
    ys.push(bounds.max.y);
    proof {
        assert(xs@.len() == 2 && xs@[0] == b.min.x && xs@[1] == b.max.x);
        assert(ys@.len() == 2 && ys@[0] == b.min.y && ys@[1] == b.max.y);
        assert forall|v: i64| has_val(xs@, v) <==> v == b.min.x || v == b.max.x by {
            if v == b.min.x || v == b.max.x {
                assert(xs@[0] == b.min.x && xs@[1] == b.max.x);
                assert(has_val(xs@, v));
            }
            if has_val(xs@, v) {
                let k = choose|k: int| 0 <= k < xs@.len() && xs@[k] == v;
                assert(k == 0 || k == 1);
            }
        }
        assert forall|v: i64| has_val(ys@, v) <==> v == b.min.y || v == b.max.y by {
            if v == b.min.y || v == b.max.y {
                assert(ys@[0] == b.min.y && ys@[1] == b.max.y);
                assert(has_val(ys@, v));
            }
            if has_val(ys@, v) {
                let k = choose|k: int| 0 <= k < ys@.len() && ys@[k] == v;
                assert(k == 0 || k == 1);
            }
        }
    }
    let mut i: usize = 0;
    while i < clipped.len()
        invariant
            i <= crects.len(),
            clipped@ == crects,
            sorted_strict(xs@),
            sorted_strict(ys@),
            forall|v: i64| has_val(xs@, v) <==> is_x_cut(b, crects.take(i as int), v),
            forall|v: i64| has_val(ys@, v) <==> is_y_cut(b, crects.take(i as int), v),
        decreases crects.len() - i,
    {
        let c = clipped[i];
        insert_cut(&mut xs, c.min.x);
        insert_cut(&mut xs, c.max.x);
        insert_cut(&mut ys, c.min.y);
        insert_cut(&mut ys, c.max.y);
        proof {
            let pre = crects.take(i as int);
            let post = crects.take(i + 1);
            assert(post.drop_last() =~= pre);
            assert(post.last() == crects[i as int]);
            assert forall|v: i64| is_x_cut(b, post, v) implies has_val(xs@, v) by {
                if !is_x_cut(b, pre, v) && v != c.min.x && v != c.max.x {
                    let k = choose|k: int| 0 <= k < post.len() && (post[k].min.x == v || post[k].max.x == v);
                    assert(k == i as int || (0 <= k < pre.len() && (pre[k].min.x == v || pre[k].max.x == v)));
                }
            }
            assert forall|v: i64| has_val(xs@, v) implies is_x_cut(b, post, v) by {
                if is_x_cut(b, pre, v) {
                    let k = choose|k: int| 0 <= k < pre.len() && (pre[k].min.x == v || pre[k].max.x == v);
                    if 0 <= k < pre.len() && (pre[k].min.x == v || pre[k].max.x == v) {
                        assert(post[k].min.x == v || post[k].max.x == v);
                    }
                } else {
                    assert(v == c.min.x || v == c.max.x);
                    assert(post[i as int].min.x == v || post[i as int].max.x == v);
                }
            }
            assert forall|v: i64| is_y_cut(b, post, v) implies has_val(ys@, v) by {
                if !is_y_cut(b, pre, v) && v != c.min.y && v != c.max.y {
                    let k = choose|k: int| 0 <= k < post.len() && (post[k].min.y == v || post[k].max.y == v);
                    assert(k == i as int || (0 <= k < pre.len() && (pre[k].min.y == v || pre[k].max.y == v)));
                }
            }
            assert forall|v: i64| has_val(ys@, v) implies is_y_cut(b, post, v) by {
                if is_y_cut(b, pre, v) {
                    let k = choose|k: int| 0 <= k < pre.len() && (pre[k].min.y == v || pre[k].max.y == v);
                    if 0 <= k < pre.len() && (pre[k].min.y == v || pre[k].max.y == v) {
                        assert(post[k].min.y == v || post[k].max.y == v);
                    }
                } else {
                    assert(v == c.min.y || v == c.max.y);
                    assert(post[i as int].min.y == v || post[i as int].max.y == v);
                }
            }
        }
        i += 1;
    }
    proof {
        assert(crects.take(crects.len() as int) =~= crects);
        assert(is_x_cuts(xs@, b, crects));
        assert(is_y_cuts(ys@, b, crects));
        assert(has_val(xs@, b.min.x) && has_val(xs@, b.max.x));
        let k1 = choose|k: int| 0 <= k < xs@.len() && xs@[k] == b.min.x;
        let k2 = choose|k: int| 0 <= k < xs@.len() && xs@[k] == b.max.x;
        assert(k1 != k2);
        assert(xs@.len() >= 2);
        assert(has_val(ys@, b.min.y) && has_val(ys@, b.max.y));
        let k3 = choose|k: int| 0 <= k < ys@.len() && ys@[k] == b.min.y;
        let k4 = choose|k: int| 0 <= k < ys@.len() && ys@[k] == b.max.y;
        assert(k3 != k4);
        assert(ys@.len() >= 2);
        lemma_clip_all_in_bounds(b, exclusions@);
        assert forall|k: int| 0 <= k < xs@.len()
            implies b.min.x <= #[trigger] xs@[k] <= b.max.x by {
            assert(has_val(xs@, xs@[k]));
            assert(is_x_cut(b, crects, xs@[k]));
        }
        assert forall|k: int| 0 <= k < ys@.len()
            implies b.min.y <= #[trigger] ys@[k] <= b.max.y by {
            assert(has_val(ys@, ys@[k]));
            assert(is_y_cut(b, crects, ys@[k]));
        }
    }

    let nx = xs.len();
    let ny = ys.len();
    let mut tris: Vec<Triangle> = Vec::new();
    let mut gi: usize = 0;
    while gi < nx - 1
        invariant
            2 <= nx == xs@.len(),
            2 <= ny == ys@.len(),
            gi <= nx - 1,
            clipped@ == crects,
            b.wf(),
            sorted_strict(xs@),
            sorted_strict(ys@),
            forall|k: int| 0 <= k < xs@.len() ==> b.min.x <= #[trigger] xs@[k] <= b.max.x,
            forall|k: int| 0 <= k < ys@.len() ==> b.min.y <= #[trigger] ys@[k] <= b.max.y,
            forall|k: int| 0 <= k < tris@.len() ==> (#[trigger] tris@[k]).wf(),
            tris@ == grid_tris_upto(xs@, ys@, crects, gi as int),
        decreases nx - 1 - gi,
    {
        let mut gj: usize = 0;
        while gj < ny - 1
            invariant
                2 <= nx == xs@.len(),
                2 <= ny == ys@.len(),
                gi < nx - 1,
                gj <= ny - 1,
                clipped@ == crects,
                b.wf(),
                sorted_strict(xs@),
                sorted_strict(ys@),
                forall|k: int| 0 <= k < xs@.len() ==> b.min.x <= #[trigger] xs@[k] <= b.max.x,
                forall|k: int| 0 <= k < ys@.len() ==> b.min.y <= #[trigger] ys@[k] <= b.max.y,
                forall|k: int| 0 <= k < tris@.len() ==> (#[trigger] tris@[k]).wf(),
                tris@ == grid_tris_upto(xs@, ys@, crects, gi as int)
                    + row_tris(xs@, ys@, crects, gi as int, gj as int),
            decreases ny - 1 - gj,
        {
            let cell = Rect {
                min: Point { x: xs[gi], y: ys[gj] },
                max: Point { x: xs[gi + 1], y: ys[gj + 1] },
            };
            let mut covered = false;
            let mut k: usize = 0;
            while k < clipped.len()
                invariant
                    k <= crects.len(),
                    clipped@ == crects,
                    covered == exists|k2: int| 0 <= k2 < k && (#[trigger] crects[k2]).covers(cell),
                decreases crects.len() - k,
            {
                if rect_covers(&clipped[k], &cell) {
                    covered = true;
                }
                k += 1;
            }
            proof {
                assert(covered == !cell_free(cell, crects));
                assert(cell == grid_cell(xs@, ys@, gi as int, gj as int));
            }
            if !covered {
                let t1 = Triangle { a: cell.min, b: Point { x: cell.max.x, y: cell.min.y }, c: cell.max };
                let t2 = Triangle { a: cell.min, b: cell.max, c: Point { x: cell.min.x, y: cell.max.y } };
                proof {
                    assert(cell.min.x < cell.max.x && cell.min.y < cell.max.y);
                    assert(t1.area2() > 0 && t2.area2() > 0) by (nonlinear_arith)
                        requires
                            t1 == (Triangle { a: cell.min, b: Point { x: cell.max.x, y: cell.min.y }, c: cell.max }),
                            t2 == (Triangle { a: cell.min, b: cell.max, c: Point { x: cell.min.x, y: cell.max.y } }),
                            cell.min.x < cell.max.x,
                            cell.min.y < cell.max.y;
                    assert(t1.wf() && t2.wf());
                }
                tris.push(t1);
                tris.push(t2);
                proof {
                    assert(tris@ =~= grid_tris_upto(xs@, ys@, crects, gi as int)
                        + row_tris(xs@, ys@, crects, gi as int, gj as int)
                        + cell_tris(cell, crects));
                }
            }
            gj += 1;
            proof {
                assert(row_tris(xs@, ys@, crects, gi as int, gj as int)
                    == row_tris(xs@, ys@, crects, gi as int, gj - 1)
                        + cell_tris(grid_cell(xs@, ys@, gi as int, gj - 1), crects));
                if cell_free(cell, crects) {
                } else {
                    assert(cell_tris(cell, crects) =~= Seq::<Triangle>::empty());
                    assert(tris@ =~= grid_tris_upto(xs@, ys@, crects, gi as int)
                        + row_tris(xs@, ys@, crects, gi as int, gj as int));
                }
            }
        }
        gi += 1;
        proof {
            assert(grid_tris_upto(xs@, ys@, crects, gi as int)
                == grid_tris_upto(xs@, ys@, crects, gi - 1) + row_tris(xs@, ys@, crects, gi - 1, ys@.len() - 1));
        }
    }
    proof {
        assert(tris@ == grid_tris(xs@, ys@, crects));
        assert(is_x_cuts(xs@, bounds.rect(), clip_all(bounds.rect(), exclusions@)));
        assert(is_y_cuts(ys@, bounds.rect(), clip_all(bounds.rect(), exclusions@)));
    }
    tris
}

/// Two strictly sorted sequences holding the same values are equal.
proof fn lemma_sorted_same_set(s1: Seq<i64>, s2: Seq<i64>)
    requires
        sorted_strict(s1),
        sorted_strict(s2),
        forall|v: i64| has_val(s1, v) <==> has_val(s2, v),
    ensures
        s1 == s2,
    decreases s1.len(),
{
    if s1.len() == 0 {
        if s2.len() > 0 {
            assert(has_val(s2, s2[0]));
            assert(false);
        }
        assert(s1 =~= s2);
    } else {
        assert(has_val(s1, s1[0]));
        assert(has_val(s2, s2[0]));
        let k1 = choose|k: int| 0 <= k < s2.len() && s2[k] == s1[0];
        let k2 = choose|k: int| 0 <= k < s1.len() && s1[k] == s2[0];
        assert(s2[0] <= s2[k1] && s1[0] <= s1[k2]);
        assert(s1[0] == s2[0]);
        let t1 = s1.skip(1);
        let t2 = s2.skip(1);
        assert(forall|j: int| 0 <= j < t1.len() ==> #[trigger] t1[j] == s1[j + 1]);
        assert(forall|j: int| 0 <= j < t2.len() ==> #[trigger] t2[j] == s2[j + 1]);
        assert forall|v: i64| has_val(t1, v) <==> has_val(t2, v) by {
            if has_val(t1, v) {
                let k = choose|k: int| 0 <= k < t1.len() && t1[k] == v;
                assert(s1[k + 1] == v);
                assert(has_val(s1, v));
                assert(s1[0] < v);
                let j = choose|j: int| 0 <= j < s2.len() && s2[j] == v;
                assert(j != 0);
                assert(t2[j - 1] == v);
                assert(has_val(t2, v));
            }
            if has_val(t2, v) {
                let k = choose|k: int| 0 <= k < t2.len() && t2[k] == v;
                assert(s2[k + 1] == v);
                assert(has_val(s2, v));
                assert(s2[0] < v);
                let j = choose|j: int| 0 <= j < s1.len() && s1[j] == v;
                assert(j != 0);
                assert(t1[j - 1] == v);
                assert(has_val(t1, v));
            }
        }
        lemma_sorted_same_set(t1, t2);
        assert(s1.len() == s2.len());
        assert forall|j: int| 0 <= j < s1.len() implies s1[j] == s2[j] by {
            if j > 0 {
                assert(t1[j - 1] == s1[j]);
                assert(t2[j - 1] == s2[j]);
            }
        }
        assert(s1 =~= s2);
    }
}

/// Rebuilding from an unchanged snapshot is idempotent: any two
/// triangulations of the same bounds and exclusion areas are identical,
/// triangle for triangle.
pub proof fn lemma_triangulation_deterministic(
    bounds: MapBounds,
    excls: Seq<ExclusionArea>,
    tris1: Seq<Triangle>,
    tris2: Seq<Triangle>,
)
    requires
        is_triangulation(bounds, excls, tris1),
        is_triangulation(bounds, excls, tris2),
    ensures
        tris1 == tris2,
{
    let b = bounds.rect();
    let rects = clip_all(b, excls);
    let (xs1, ys1) = choose|xs: Seq<i64>, ys: Seq<i64>|
        #![all_triggers]
        is_x_cuts(xs, b, rects) && is_y_cuts(ys, b, rects) && tris1 == grid_tris(xs, ys, rects);
    let (xs2, ys2) = choose|xs: Seq<i64>, ys: Seq<i64>|
        #![all_triggers]
        is_x_cuts(xs, b, rects) && is_y_cuts(ys, b, rects) && tris2 == grid_tris(xs, ys, rects);
    assert(is_x_cuts(xs1, b, rects) && is_y_cuts(ys1, b, rects));
    assert(is_x_cuts(xs2, b, rects) && is_y_cuts(ys2, b, rects));
    assert forall|v: i64| has_val(xs1, v) <==> has_val(xs2, v) by {
        assert(has_val(xs1, v) <==> is_x_cut(b, rects, v));
        assert(has_val(xs2, v) <==> is_x_cut(b, rects, v));
    }
    assert forall|v: i64| has_val(ys1, v) <==> has_val(ys2, v) by {
        assert(has_val(ys1, v) <==> is_y_cut(b, rects, v));
        assert(has_val(ys2, v) <==> is_y_cut(b, rects, v));
    }
    lemma_sorted_same_set(xs1, xs2);
    lemma_sorted_same_set(ys1, ys2);
}

} // verus!

