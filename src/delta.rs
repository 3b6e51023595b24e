//! The offset table: for each squared distance up to a ceiling, every integer
//! offset that realises it, each once.

use vstd::prelude::*;

verus! {

/// Squared length of an offset.
pub open spec fn norm2(o: (i64, i64)) -> int {
    o.0 * o.0 + o.1 * o.1
}

pub open spec fn abs(a: int) -> int {
    if a < 0 {
        -a
    } else {
        a
    }
}

/// The table is exact up to `max`: bucket `d` holds the offsets of squared
/// length `d`, each once, and every offset of squared length at most `max`
/// stands in its bucket.
pub open spec fn table_exact(t: Seq<Vec<(i64, i64)>>, max: int) -> bool {
    &&& t.len() == max + 1
    &&& forall|d: int, j: int| 0 <= d <= max && 0 <= j < t[d]@.len() ==> norm2(#[trigger] t[d]@[j]) == d
    &&& forall|d: int| 0 <= d <= max ==> (#[trigger] t[d]@).no_duplicates()
    &&& forall|o: (i64, i64)| norm2(o) <= max ==> #[trigger] t[norm2(o)]@.contains(o)
}

/// Offset `o` is among those enumerated once the scan has reached column `x`, row `y`.
spec fn scanned(x: int, y: int, o: (i64, i64)) -> bool {
    abs(o.0 as int) < x || (abs(o.0 as int) == x && abs(o.1 as int) < y)
}

spec fn table_upto(t: Seq<Vec<(i64, i64)>>, max: int, x: int, y: int) -> bool {
    &&& t.len() == max + 1
    &&& forall|d: int| 0 <= d <= max ==> (#[trigger] t[d]@).no_duplicates()
    &&& forall|d: int, o: (i64, i64)|
        0 <= d <= max ==> (#[trigger] t[d]@.contains(o) <==> (norm2(o) == d && scanned(x, y, o)))
}

proof fn lemma_square_order(a: int, x: int)
    requires
        0 <= x,
    ensures
        abs(a) < x <==> a * a < x * x,
        abs(a) == x <==> a * a == x * x,
{
    if a >= 0 {
        assert(a < x <==> a * a < x * x) by (nonlinear_arith)
            requires 0 <= a, 0 <= x;
        assert(a == x <==> a * a == x * x) by (nonlinear_arith)
            requires 0 <= a, 0 <= x;
    } else {
        assert(-a < x <==> a * a < x * x) by (nonlinear_arith)
            requires a < 0, 0 <= x;
        assert(-a == x <==> a * a == x * x) by (nonlinear_arith)
            requires a < 0, 0 <= x;
    }
}

pub proof fn lemma_push_contains(s: Seq<(i64, i64)>, a: (i64, i64), o: (i64, i64))
    ensures
        s.push(a).contains(o) <==> (s.contains(o) || o == a),
{
    if s.push(a).contains(o) {
        let i = choose|i: int| 0 <= i < s.push(a).len() && s.push(a)[i] == o;
        if i < s.len() {
            assert(s[i] == o);
        }
    }
    if s.contains(o) {
        let i = choose|i: int| 0 <= i < s.len() && s[i] == o;
        assert(s.push(a)[i] == o);
    }
    if o == a {
        assert(s.push(a)[s.len() as int] == o);
    }
}

/// Appends `o` to bucket `d`, which does not hold it yet.
fn push_new(t: &mut Vec<Vec<(i64, i64)>>, d: usize, o: (i64, i64))
    requires
        d < old(t)@.len(),
        !old(t)@[d as int]@.contains(o),
        old(t)@[d as int]@.no_duplicates(),
    ensures
        final(t)@.len() == old(t)@.len(),
        final(t)@[d as int]@ == old(t)@[d as int]@.push(o),
        final(t)@[d as int]@.no_duplicates(),
        forall|q: (i64, i64)| #[trigger] final(t)@[d as int]@.contains(q) <==> (old(t)@[d as int]@.contains(q) || q == o),
        forall|k: int| 0 <= k < old(t)@.len() && k != d ==> final(t)@[k] == old(t)@[k],
{
    t[d].push(o);
    proof {
        assert forall|q: (i64, i64)| #[trigger] final(t)@[d as int]@.contains(q) <==> (old(t)@[d as int]@.contains(q) || q == o) by {
            lemma_push_contains(old(t)@[d as int]@, o, q);
        }
        let s = final(t)@[d as int]@;
        assert forall|i: int, j: int| 0 <= i < s.len() && 0 <= j < s.len() && i != j implies s[i] != s[j] by {
            if i < s.len() - 1 && j < s.len() - 1 {
                assert(old(t)@[d as int]@[i] == s[i]);
            } else if i == s.len() - 1 {
                assert(old(t)@[d as int]@[j] == s[j]);
            } else {
                assert(old(t)@[d as int]@[i] == s[i]);
            }
        }
    }
}

/// Builds the table of offsets for every squared distance in `[0, max_delta]`.
pub fn build_delta_table(max_delta: usize) -> (t: Vec<Vec<(i64, i64)>>)
    requires
        max_delta <= 8_000_000_000_000,
    ensures
        table_exact(t@, max_delta as int),
{
    let mut t: Vec<Vec<(i64, i64)>> = Vec::new();
    while t.len() <= max_delta
        invariant
            t@.len() <= max_delta + 1,
            max_delta <= 8_000_000_000_000,
            forall|k: int| 0 <= k < t@.len() ==> (#[trigger] t@[k])@.len() == 0,
        decreases max_delta + 1 - t@.len(),
    {
        t.push(Vec::new());
    }
    assert(table_upto(t@, max_delta as int, 0, 0)) by {
        assert forall|d: int, o: (i64, i64)| 0 <= d <= max_delta implies (#[trigger] t@[d]@.contains(o) <==> (
        norm2(o) == d && scanned(0, 0, o))) by {
            assert(t@[d]@.len() == 0);
        }
    }
    let mut x: i64 = 0;
    let mut xx: i64 = 0;
    while xx <= max_delta as i64
        invariant
            0 <= x <= 3_000_000,
            xx == x * x,
            max_delta <= 8_000_000_000_000,
            x > 0 ==> (x - 1) * (x - 1) <= max_delta,
            table_upto(t@, max_delta as int, x as int, 0),
        decreases 3_000_000 - x,
    {
        let mut y: i64 = 0;
        let mut yy: i64 = 0;
        while xx + yy <= max_delta as i64
            invariant
                0 <= x <= 3_000_000,
                0 <= y <= 3_000_000,
                xx == x * x,
                yy == y * y,
                0 <= yy <= 9_000_000_000_000,
                0 <= xx <= max_delta,
                x * x <= max_delta,
                max_delta <= 8_000_000_000_000,
                table_upto(t@, max_delta as int, x as int, y as int),
            decreases 3_000_000 - y,
        {
            let n = (xx + yy) as usize;
            let ghost before = t@;
            let nx = -x;
            let ny = -y;
            let ghost fresh = set![(x, y), (nx, y), (x, ny), (nx, ny)];
            proof {
                assert forall|o: (i64, i64)| fresh.contains(o) implies !#[trigger] before[n as int]@.contains(o) && norm2(o) == n by {
                    lemma_square_order(o.1 as int, y as int);
                    lemma_square_order(o.0 as int, x as int);
                }
            }
            push_new(&mut t, n, (x, y));
            if x != 0 {
                push_new(&mut t, n, (nx, y));
            }
            if y != 0 {
                push_new(&mut t, n, (x, ny));
                if x != 0 {
                    push_new(&mut t, n, (nx, ny));
                }
            }
            proof {
                assert forall|d: int, o: (i64, i64)| 0 <= d <= max_delta implies (#[trigger] t@[d]@.contains(o) <==> (
                norm2(o) == d && scanned(x as int, y + 1, o))) by {
                    lemma_square_order(o.1 as int, y as int);
                    lemma_square_order(o.0 as int, x as int);
                    if d != n {
                        assert(t@[d] == before[d]);
                    } else {
                        if t@[d]@.contains(o) && !before[d]@.contains(o) {
                            assert(fresh.contains(o));
                        }
                        if !before[d]@.contains(o) && norm2(o) == d && scanned(x as int, y + 1, o) {
                            assert(abs(o.0 as int) == x && abs(o.1 as int) == y);
                            assert(o == (x, y) || o == (nx, y) || o == (x, ny) || o == (nx, ny));
                        }
                    }
                }
            }
            assert(y <= 2_900_000) by (nonlinear_arith)
                requires y * y <= 8_000_000_000_000, y >= 0;
            yy = yy + 2 * y + 1;
            y = y + 1;
            assert(yy == y * y) by (nonlinear_arith)
                requires yy == (y - 1) * (y - 1) + 2 * (y - 1) + 1;
            assert(yy <= 9_000_000_000_000) by (nonlinear_arith)
                requires yy == y * y, 0 <= y <= 2_900_001;
        }
        proof {
            assert forall|d: int, o: (i64, i64)| 0 <= d <= max_delta implies (#[trigger] t@[d]@.contains(o) <==> (
            norm2(o) == d && scanned(x + 1, 0, o))) by {
                lemma_square_order(o.1 as int, y as int);
                lemma_square_order(o.0 as int, x as int);
                lemma_square_order(o.0 as int, x + 1);
                assert(abs(o.0 as int) < x + 1 <==> abs(o.0 as int) <= x);
            }
        }
        assert(x <= 2_900_000) by (nonlinear_arith)
            requires x * x <= 8_000_000_000_000, x >= 0;
        xx = xx + 2 * x + 1;
        x = x + 1;
        assert(xx == x * x) by (nonlinear_arith)
            requires xx == (x - 1) * (x - 1) + 2 * (x - 1) + 1;
    }
    proof {
        assert forall|o: (i64, i64)| norm2(o) <= max_delta implies #[trigger] t@[norm2(o)]@.contains(o) by {
            lemma_square_order(o.0 as int, x as int);
            assert(o.1 * o.1 >= 0) by (nonlinear_arith);
            assert(o.0 * o.0 >= 0) by (nonlinear_arith);
        }
        assert forall|d: int, j: int| 0 <= d <= max_delta && 0 <= j < t@[d]@.len() implies norm2(
            #[trigger] t@[d]@[j],
        ) == d by {
            assert(t@[d]@.contains(t@[d]@[j]));
        }
    }
    t
}

} // verus!
