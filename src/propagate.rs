//! Propagation grids: per-vertex counters over the lattice cells of the
//! hole's bounding box, shifted up when a neighbour is placed and shifted
//! back down, exactly, when it is taken away.

use crate::delta::{lemma_push_contains, norm2, table_exact};
use crate::geometry::{dist2, in_range, Point};
use crate::problem::{cell_index, grid_point, in_box, lemma_cell_index};
use vstd::prelude::*;

verus! {

/// `q` lies at a squared distance from `p` within `[lo, hi]`.
pub open spec fn reach(p: Point, q: Point, lo: int, hi: int) -> bool {
    lo <= dist2(p, q) <= hi
}

/// Counter `k` of the block starting at `base`.
pub open spec fn at(g: Seq<usize>, base: int, k: int) -> int {
    g[base + k] as int
}

/// The change that one shift makes to a counter.
pub open spec fn step(hit: bool, up: bool) -> int {
    if !hit {
        0
    } else if up {
        1
    } else {
        -1
    }
}

/// The block of `cells` counters at `base` moved by one, in direction `up`,
/// at exactly the cells within `[lo, hi]` of `p`; all else is unchanged.
pub open spec fn shifted(
    g0: Seq<usize>,
    g: Seq<usize>,
    base: int,
    cells: int,
    mn: Point,
    h: int,
    p: Point,
    lo: int,
    hi: int,
    up: bool,
) -> bool {
    &&& g.len() == g0.len()
    &&& forall|i: int| 0 <= i < g.len() && !(base <= i < base + cells) ==> g[i] == g0[i]
    &&& forall|k: int|
        0 <= k < cells ==> #[trigger] at(g, base, k) == at(g0, base, k) + step(
            reach(p, grid_point(mn, h, k), lo, hi),
            up,
        )
}

pub open spec fn box_cells(mn: Point, mx: Point) -> int {
    (mx.x - mn.x + 1) * (mx.y - mn.y + 1)
}

pub open spec fn box_ok(mn: Point, mx: Point) -> bool {
    in_range(mn) && in_range(mx) && mn.x <= mx.x && mn.y <= mx.y
}

pub proof fn lemma_grid_point_in_box(mn: Point, mx: Point, k: int)
    requires
        box_ok(mn, mx),
        0 <= k < box_cells(mn, mx),
    ensures
        in_box(mn, mx, grid_point(mn, mx.y - mn.y + 1, k)),
        in_range(grid_point(mn, mx.y - mn.y + 1, k)),
        cell_index(mn, mx.y - mn.y + 1, grid_point(mn, mx.y - mn.y + 1, k)) == k,
        0 <= k / (mx.y - mn.y + 1) < mx.x - mn.x + 1,
        0 <= k % (mx.y - mn.y + 1) < mx.y - mn.y + 1,
{
    let h = mx.y - mn.y + 1;
    let w = mx.x - mn.x + 1;
    vstd::arithmetic::div_mod::lemma_fundamental_div_mod(k, h);
    let q = k / h;
    let r = k % h;
    assert(0 <= q < w) by (nonlinear_arith)
        requires k == h * q + r, 0 <= r < h, 0 <= k < w * h, h > 0;
    assert(h * q == q * h) by (nonlinear_arith);
}

/// Shifting a block up and then down at the same cells gives back the
/// counters exactly.
pub proof fn lemma_shift_round_trip(
    g0: Seq<usize>,
    g1: Seq<usize>,
    g2: Seq<usize>,
    base: int,
    cells: int,
    mn: Point,
    h: int,
    p: Point,
    lo: int,
    hi: int,
)
    requires
        0 <= base,
        shifted(g0, g1, base, cells, mn, h, p, lo, hi, true),
        shifted(g1, g2, base, cells, mn, h, p, lo, hi, false),
    ensures
        g2 == g0,
{
    assert forall|i: int| 0 <= i < g0.len() implies g2[i] == g0[i] by {
        if base <= i < base + cells {
            assert(at(g2, base, i - base) == at(g1, base, i - base) + step(
                reach(p, grid_point(mn, h, i - base), lo, hi),
                false,
            ));
            assert(at(g1, base, i - base) == at(g0, base, i - base) + step(
                reach(p, grid_point(mn, h, i - base), lo, hi),
                true,
            ));
        }
    }
    assert(g2 =~= g0);
}

spec fn offset(p: Point, q: Point) -> (i64, i64) {
    ((q.x - p.x) as i64, (q.y - p.y) as i64)
}

/// Cell `k` has been shifted once the scan has reached bucket `d`, entry `j`.
spec fn done(t: Seq<Vec<(i64, i64)>>, p: Point, mn: Point, h: int, lo: int, d: int, j: int, k: int) -> bool {
    let q = grid_point(mn, h, k);
    let dd = dist2(p, q);
    (lo <= dd < d) || (dd == d && t[d]@.subrange(0, j).contains(offset(p, q)))
}

proof fn lemma_offset_small(o: (i64, i64))
    requires
        norm2(o) <= 8_000_000_000_000,
    ensures
        -3_000_000 <= o.0 <= 3_000_000,
        -3_000_000 <= o.1 <= 3_000_000,
{
    assert(o.1 * o.1 >= 0) by (nonlinear_arith);
    assert(o.0 * o.0 >= 0) by (nonlinear_arith);
    assert(-3_000_000 <= o.0 <= 3_000_000) by (nonlinear_arith)
        requires o.0 * o.0 <= 8_000_000_000_000;
    assert(-3_000_000 <= o.1 <= 3_000_000) by (nonlinear_arith)
        requires o.1 * o.1 <= 8_000_000_000_000;
}

/// Moves by one, up or down, every counter of the block at `base` whose cell
/// lies within squared distance `[lo, hi]` of `p`, visiting the offsets of the
/// table. Returns, when moving up, whether some moved counter reached `target`.
pub fn shift(
    grid: &mut Vec<usize>,
    base: usize,
    mn: Point,
    mx: Point,
    table: &Vec<Vec<(i64, i64)>>,
    p: Point,
    lo: i64,
    hi: i64,
    up: bool,
    target: usize,
) -> (feasible: bool)
    requires
        table@.len() >= 1,
        table@.len() <= 8_000_000_000_001,
        table_exact(table@, table@.len() - 1),
        0 <= lo,
        hi < table@.len(),
        box_ok(mn, mx),
        in_box(mn, mx, p),
        base + box_cells(mn, mx) <= old(grid)@.len(),
        forall|k: int|
            0 <= k < box_cells(mn, mx) && reach(p, grid_point(mn, mx.y - mn.y + 1, k), lo as int, hi as int)
                ==> if up {
                #[trigger] at(old(grid)@, base as int, k) < usize::MAX
            } else {
                at(old(grid)@, base as int, k) >= 1
            },
    ensures
        shifted(
            old(grid)@,
            final(grid)@,
            base as int,
            box_cells(mn, mx),
            mn,
            mx.y - mn.y + 1,
            p,
            lo as int,
            hi as int,
            up,
        ),
        feasible ==> exists|k: int| 0 <= k < box_cells(mn, mx) && #[trigger] at(final(grid)@, base as int, k) == target,
        up ==> forall|k: int|
            0 <= k < box_cells(mn, mx) && reach(p, grid_point(mn, mx.y - mn.y + 1, k), lo as int, hi as int) && #[trigger] at(
                final(grid)@,
                base as int,
                k,
            ) == target ==> feasible,
{
    let ghost g0 = grid@;
    let ghost cells = box_cells(mn, mx);
    let ghost hh = mx.y - mn.y + 1;
    let ghost max = table@.len() - 1;
    let h = (mx.y - mn.y + 1) as usize;
    let mut feasible = false;
    proof {
        lemma_cell_index(mn, mx, p);
    }
    if lo > hi {
        proof {
            assert forall|k: int| 0 <= k < cells implies #[trigger] at(grid@, base as int, k) == at(g0, base as int, k) + step(
                reach(p, grid_point(mn, hh, k), lo as int, hi as int),
                up,
            ) by {}
        }
        return false;
    }
    let tlen = table.len();
    let mut d: i64 = lo;
    while d <= hi
        invariant
            tlen == table@.len(),
            0 <= lo <= d <= hi + 1,
            hi < table@.len(),
            max == table@.len() - 1,
            max <= 8_000_000_000_000,
            table_exact(table@, max),
            box_ok(mn, mx),
            in_box(mn, mx, p),
            h == hh,
            hh == mx.y - mn.y + 1,
            cells == box_cells(mn, mx),
            base + cells <= g0.len(),
            grid@.len() == g0.len(),
            forall|k: int|
                0 <= k < cells && reach(p, grid_point(mn, hh, k), lo as int, hi as int) ==> if up {
                    #[trigger] at(g0, base as int, k) < usize::MAX
                } else {
                    at(g0, base as int, k) >= 1
                },
            forall|i: int| 0 <= i < grid@.len() && !(base <= i < base + cells) ==> grid@[i] == g0[i],
            forall|k: int|
                0 <= k < cells ==> #[trigger] at(grid@, base as int, k) == at(g0, base as int, k) + step(
                    done(table@, p, mn, hh, lo as int, d as int, 0, k),
                    up,
                ),
            feasible ==> exists|k: int|
                0 <= k < cells && done(table@, p, mn, hh, lo as int, d as int, 0, k) && #[trigger] at(grid@, base as int, k)
                    == target,
            up ==> forall|k: int|
                0 <= k < cells && done(table@, p, mn, hh, lo as int, d as int, 0, k) && #[trigger] at(grid@, base as int, k)
                    == target ==> feasible,
        decreases hi + 1 - d,
    {
        assert(d < tlen);
        let du = d as usize;
        assert(du == d);
        let bucket = &table[du];
        let mut j: usize = 0;
        while j < bucket.len()
            invariant
                0 <= lo <= d <= hi,
                hi < table@.len(),
                max == table@.len() - 1,
                max <= 8_000_000_000_000,
                table_exact(table@, max),
                *bucket == table@[d as int],
                j <= bucket@.len(),
                box_ok(mn, mx),
                in_box(mn, mx, p),
                h == hh,
                hh == mx.y - mn.y + 1,
                cells == box_cells(mn, mx),
                base + cells <= g0.len(),
                grid@.len() == g0.len(),
                forall|k: int|
                    0 <= k < cells && reach(p, grid_point(mn, hh, k), lo as int, hi as int) ==> if up {
                        #[trigger] at(g0, base as int, k) < usize::MAX
                    } else {
                        at(g0, base as int, k) >= 1
                    },
                forall|i: int| 0 <= i < grid@.len() && !(base <= i < base + cells) ==> grid@[i] == g0[i],
                forall|k: int|
                    0 <= k < cells ==> #[trigger] at(grid@, base as int, k) == at(g0, base as int, k) + step(
                        done(table@, p, mn, hh, lo as int, d as int, j as int, k),
                        up,
                    ),
                feasible ==> exists|k: int|
                    0 <= k < cells && done(table@, p, mn, hh, lo as int, d as int, j as int, k) && #[trigger] at(
                        grid@,
                        base as int,
                        k,
                    ) == target,
                up ==> forall|k: int|
                    0 <= k < cells && done(table@, p, mn, hh, lo as int, d as int, j as int, k) && #[trigger] at(
                        grid@,
                        base as int,
                        k,
                    ) == target ==> feasible,
            decreases bucket@.len() - j,
        {
            let o = bucket[j];
            proof {
                assert(norm2(table@[d as int]@[j as int]) == d);
                lemma_offset_small(o);
            }
            let tx = p.x + o.0;
            let ty = p.y + o.1;
            let ghost t = Point { x: tx, y: ty };
            let ghost pre = grid@;
            proof {
                assert(table@[d as int]@.subrange(0, j + 1 as int) == table@[d as int]@.subrange(0, j as int).push(o));
            }
            if mn.x <= tx && tx <= mx.x && mn.y <= ty && ty <= mx.y {
                let ghost kt = cell_index(mn, hh, t);
                proof {
                    lemma_cell_index(mn, mx, t);
                    assert(offset(p, t) == o);
                    assert(dist2(p, t) == norm2(o)) by (nonlinear_arith)
                        requires t.x == p.x + o.0, t.y == p.y + o.1;
                    assert(dist2(p, t) == d);
                    assert(!table@[d as int]@.subrange(0, j as int).contains(o)) by {
                        if table@[d as int]@.subrange(0, j as int).contains(o) {
                            let i = choose|i: int| 0 <= i < j && table@[d as int]@.subrange(0, j as int)[i] == o;
                            assert(table@[d as int]@[i] == table@[d as int]@[j as int]);
                        }
                    }
                    assert(!done(table@, p, mn, hh, lo as int, d as int, j as int, kt));
                    assert(reach(p, t, lo as int, hi as int));
                    assert(0 <= kt < cells);
                    assert(base + kt < grid@.len());
                    assert(at(g0, base as int, kt) == g0[base + kt]);
                }
                let kx = (tx - mn.x) as usize;
                let ky = (ty - mn.y) as usize;
                proof {
                    assert(0 <= kx * h <= kx * h + ky) by (nonlinear_arith)
                        requires 0 <= kx, 0 <= ky, 0 < h;
                    assert(kx * h + ky == kt);
                }
                let glen = grid.len();
                assert(base + kt < glen);
                let idx = base + (kx * h + ky);
                proof {
                    assert(grid_point(mn, hh, kt) == t);
                    assert(at(grid@, base as int, kt) == at(g0, base as int, kt));
                    if up {
                        assert(at(g0, base as int, kt) < usize::MAX);
                    } else {
                        assert(at(g0, base as int, kt) >= 1);
                    }
                    assert(grid@[idx as int] == at(grid@, base as int, kt));
                }
                if up {
                    grid[idx] = grid[idx] + 1;
                    if grid[idx] == target {
                        feasible = true;
                    }
                } else {
                    grid[idx] = grid[idx] - 1;
                }
                proof {
                    assert(at(grid@, base as int, kt) == grid@[idx as int]);
                    assert forall|k: int| 0 <= k < cells implies #[trigger] at(grid@, base as int, k) == at(g0, base as int, k)
                        + step(done(table@, p, mn, hh, lo as int, d as int, j + 1, k), up) by {
                        let q = grid_point(mn, hh, k);
                        lemma_grid_point_in_box(mn, mx, k);
                        lemma_push_contains(table@[d as int]@.subrange(0, j as int), o, offset(p, q));
                        if k != kt {
                            assert(at(grid@, base as int, k) == at(pre, base as int, k));
                            if offset(p, q) == o {
                                assert(q == t);
                            }
                        } else {
                            assert(q == t);
                            assert(done(table@, p, mn, hh, lo as int, d as int, j + 1, k));
                        }
                    }
                    assert forall|k: int| 0 <= k < cells && done(table@, p, mn, hh, lo as int, d as int, j as int, k)
                        implies done(table@, p, mn, hh, lo as int, d as int, j + 1, k) by {
                        lemma_push_contains(table@[d as int]@.subrange(0, j as int), o, offset(p, grid_point(mn, hh, k)));
                    }
                    if up {
                        assert forall|k: int|
                            0 <= k < cells && done(table@, p, mn, hh, lo as int, d as int, j + 1, k) && #[trigger] at(
                                grid@,
                                base as int,
                                k,
                            ) == target implies feasible by {
                            if k != kt {
                                let q = grid_point(mn, hh, k);
                                lemma_grid_point_in_box(mn, mx, k);
                                lemma_push_contains(table@[d as int]@.subrange(0, j as int), o, offset(p, q));
                                if offset(p, q) == o {
                                    assert(q == t);
                                }
                                assert(at(grid@, base as int, k) == at(pre, base as int, k));
                                assert(done(table@, p, mn, hh, lo as int, d as int, j as int, k));
                            }
                        }
                    }
                    if feasible {
                        if up && grid@[idx as int] == target {
                            assert(done(table@, p, mn, hh, lo as int, d as int, j + 1, kt));
                            assert(at(grid@, base as int, kt) == target);
                        } else {
                            let k = choose|k: int|
                                0 <= k < cells && done(table@, p, mn, hh, lo as int, d as int, j as int, k) && #[trigger] at(
                                    pre,
                                    base as int,
                                    k,
                                ) == target;
                            assert(k != kt);
                            assert(at(grid@, base as int, k) == target);
                        }
                    }
                }
            } else {
                proof {
                    assert forall|k: int| 0 <= k < cells implies #[trigger] at(grid@, base as int, k) == at(g0, base as int, k)
                        + step(done(table@, p, mn, hh, lo as int, d as int, j + 1, k), up) by {
                        let q = grid_point(mn, hh, k);
                        lemma_grid_point_in_box(mn, mx, k);
                        lemma_push_contains(table@[d as int]@.subrange(0, j as int), o, offset(p, q));
                        if offset(p, q) == o {
                            assert(q == t);
                        }
                    }
                    assert forall|k: int| 0 <= k < cells && done(table@, p, mn, hh, lo as int, d as int, j as int, k)
                        implies done(table@, p, mn, hh, lo as int, d as int, j + 1, k) by {
                        lemma_push_contains(table@[d as int]@.subrange(0, j as int), o, offset(p, grid_point(mn, hh, k)));
                    }
                    assert forall|k: int| 0 <= k < cells && done(table@, p, mn, hh, lo as int, d as int, j + 1, k)
                        implies done(table@, p, mn, hh, lo as int, d as int, j as int, k) by {
                        let q = grid_point(mn, hh, k);
                        lemma_grid_point_in_box(mn, mx, k);
                        lemma_push_contains(table@[d as int]@.subrange(0, j as int), o, offset(p, q));
                        if offset(p, q) == o {
                            assert(q == t);
                        }
                    }
                }
            }
            j = j + 1;
        }
        proof {
            assert(table@[d as int]@.subrange(0, j as int) == table@[d as int]@);
            assert forall|k: int| 0 <= k < cells implies #[trigger] at(grid@, base as int, k) == at(g0, base as int, k) + step(
                done(table@, p, mn, hh, lo as int, d + 1, 0, k),
                up,
            ) by {
                let q = grid_point(mn, hh, k);
                lemma_grid_point_in_box(mn, mx, k);
                assert(done(table@, p, mn, hh, lo as int, d as int, j as int, k) == done(
                    table@,
                    p,
                    mn,
                    hh,
                    lo as int,
                    d + 1,
                    0,
                    k,
                )) by {
                    if dist2(p, q) == d {
                        let oq = offset(p, q);
                        assert(oq.0 == q.x - p.x && oq.1 == q.y - p.y);
                        assert(norm2(oq) == dist2(p, q)) by (nonlinear_arith)
                            requires oq.0 == q.x - p.x, oq.1 == q.y - p.y;
                        assert(table@[norm2(offset(p, q))]@.contains(offset(p, q)));
                    }
                }
                if dist2(p, q) == d {
                    let oq = offset(p, q);
                    assert(oq.0 == q.x - p.x && oq.1 == q.y - p.y);
                    assert(norm2(oq) == dist2(p, q)) by (nonlinear_arith)
                        requires oq.0 == q.x - p.x, oq.1 == q.y - p.y;
                    assert(table@[norm2(offset(p, q))]@.contains(offset(p, q)));
                }
            }
        }
        d = d + 1;
    }
    proof {
        assert forall|k: int| 0 <= k < cells implies #[trigger] at(grid@, base as int, k) == at(g0, base as int, k) + step(
            reach(p, grid_point(mn, hh, k), lo as int, hi as int),
            up,
        ) by {
            assert(done(table@, p, mn, hh, lo as int, d as int, 0, k) == reach(p, grid_point(mn, hh, k), lo as int, hi as int));
        }
    }
    feasible
}

} // verus!
