//! Chunk positions around a center: a square of them, and those within a
//! radius.
use vstd::prelude::*;

use crate::grid::{tdiv, tmod};
use crate::graph::{lemma_no_dup_push, lemma_push_contains};

verus! {

/// The `i32` range.
pub open spec fn fits(v: int) -> bool {
    i32::MIN <= v <= i32::MAX
}

/// Half of `r`, rounded toward zero.
pub open spec fn half(r: int) -> int {
    if r >= 0 {
        r / 2
    } else {
        -((-r) / 2)
    }
}

/// The `r * r` positions of the square of side `r` around `center` fit in
/// `i32`, and so does every coordinate on the way to them.
pub open spec fn square_fits(r: int, center: (i32, i32)) -> bool {
    &&& fits(r * r)
    &&& forall|i: int| 0 <= i < r * r ==> {
        &&& fits(center.0 + #[trigger] tmod(i, r))
        &&& fits(center.0 + tmod(i, r) - half(r))
        &&& fits(center.1 + tdiv(i, r))
        &&& fits(center.1 + tdiv(i, r) - half(r))
    }
}

/// Position `i` of the square of side `r` around `center`: row `i / r` and
/// column `i % r`, shifted back by half the side.
pub open spec fn square_point(r: int, center: (i32, i32), i: int) -> (i32, i32) {
    ((center.0 + tmod(i, r) - half(r)) as i32, (center.1 + tdiv(i, r) - half(r)) as i32)
}

/// Takes a size, squares it, and returns the (x, y) coordinates of the
/// square of `radius * radius` positions centered around the given point,
/// row by row: around (2, 3) with size 3, the positions from (1, 2) to
/// (3, 4).
pub fn iter_xy(radius: i32, center: (i32, i32)) -> (r: Vec<(i32, i32)>)
    requires
        square_fits(radius as int, center),
    ensures
        r@.len() == radius * radius,
        forall|i: int| 0 <= i < r@.len() ==> #[trigger] r@[i] == square_point(radius as int, center, i),
{
    let rr = radius;
    assert(rr * rr >= 0) by (nonlinear_arith);
    let n = rr * rr;
    assert(n == 0 || (rr != 0 && rr != i32::MIN)) by (nonlinear_arith)
        requires
            n == rr * rr,
            n <= i32::MAX,
    {
        if rr == i32::MIN {
            assert(rr * rr > i32::MAX);
        }
    }
    let h: i32 = if n == 0 {
        0
    } else if rr >= 0 {
        rr / 2
    } else {
        -((-rr) / 2)
    };
    assert(n > 0 ==> h == half(radius as int));
    let (cx, cy) = center;
    let mut out: Vec<(i32, i32)> = Vec::new();
    let mut i: i32 = 0;
    while i < n
        invariant
            rr == radius,
            n == rr * rr,
            0 <= i <= n,
            n == 0 || (rr != 0 && rr != i32::MIN),
            n > 0 ==> h == half(radius as int),
            (cx, cy) == center,
            square_fits(radius as int, center),
            out@.len() == i,
            forall|k: int| 0 <= k < i ==> #[trigger] out@[k] == square_point(radius as int, center, k),
        decreases n - i,
    {
        proof {
            assert(fits(cx + tmod(i as int, radius as int)));
            assert(fits(cx + tmod(i as int, radius as int) - half(radius as int)));
            assert(fits(cy + tdiv(i as int, radius as int) - half(radius as int)));
        }
        let mq = crate::grid::div_rem(i, rr);
        let m = mq.0;
        let q = mq.1;
        out.push((cx + m - h, cy + q - h));
        i = i + 1;
    }
    out
}

/// Every value computed on the way to the positions of the disc of radius
/// `r` around `center` fits in `i32`.
pub open spec fn disc_fits(r: int, center: (i32, i32)) -> bool {
    let d = 2 * r;
    &&& fits(d)
    &&& fits(d * d)
    &&& fits(r * r)
    &&& forall|i: int| 0 <= i < d * d ==> {
        let x = #[trigger] tmod(i, d) - r;
        let y = tdiv(i, d) - r;
        &&& fits(x)
        &&& fits(y)
        &&& fits(x * x)
        &&& fits(y * y)
        &&& fits(x * x + y * y)
        &&& fits(center.0 + x)
        &&& fits(center.1 + y)
    }
}

/// The positions kept among the first `k` of the square of side `2r`: the
/// offset of position `i` is `(i % 2r - r, i / 2r - r)`, and it is kept when
/// it lies strictly inside the circle of radius `r`; the kept position is the
/// center plus the offset.
pub open spec fn disc_points(r: int, center: (i32, i32), k: int) -> Seq<(i32, i32)>
    decreases k,
{
    if k <= 0 {
        Seq::empty()
    } else {
        let prev = disc_points(r, center, k - 1);
        let i = k - 1;
        let d = 2 * r;
        let x = tmod(i, d) - r;
        let y = tdiv(i, d) - r;
        if x * x + y * y < r * r {
            prev.push(((center.0 + x) as i32, (center.1 + y) as i32))
        } else {
            prev
        }
    }
}

/// The offset of position `i` of the square of side `2r`, and the position
/// it gives around `center`.
pub open spec fn disc_point(r: int, center: (i32, i32), i: int) -> (i32, i32) {
    ((center.0 + tmod(i, 2 * r) - r) as i32, (center.1 + tdiv(i, 2 * r) - r) as i32)
}

/// Position `i` of the square of side `2r` is kept: its offset lies strictly
/// within the circle of radius `r`.
pub open spec fn disc_kept(r: int, i: int) -> bool {
    let x = tmod(i, 2 * r) - r;
    let y = tdiv(i, 2 * r) - r;
    x * x + y * y < r * r
}

/// `p` lies strictly within the circle of radius `r` around `center`.
pub open spec fn in_circle(r: int, center: (i32, i32), p: (i32, i32)) -> bool {
    (p.0 - center.0) * (p.0 - center.0) + (p.1 - center.1) * (p.1 - center.1) < r * r
}

/// Returns the (x, y) coordinates that fit within a circle of the given
/// radius centered around the passed position: for a radius of at least
/// zero, each point strictly inside the circle, once.
pub fn iter_radius_xy(radius: i32, center: (i32, i32)) -> (r: Vec<(i32, i32)>)
    requires
        disc_fits(radius as int, center),
    ensures
        r@ == disc_points(radius as int, center, 4 * radius * radius),
        radius >= 0 ==> r@.no_duplicates(),
        radius >= 0 ==> forall|p: (i32, i32)| #[trigger] r@.contains(p) <==> in_circle(radius as int, center, p),
{
    let rr = radius;
    let d = 2 * rr;
    assert(d * d >= 0) by (nonlinear_arith);
    assert(d * d == 4 * radius * radius) by (nonlinear_arith)
        requires
            d == 2 * radius,
    ;
    let n = d * d;
    let r2 = rr * rr;
    let (cx, cy) = center;
    let mut out: Vec<(i32, i32)> = Vec::new();
    let mut i: i32 = 0;
    while i < n
        invariant
            rr == radius,
            r2 == radius * radius,
            d == 2 * radius,
            n == d * d,
            0 <= i <= n,
            d != 0 || n == 0,
            (cx, cy) == center,
            disc_fits(radius as int, center),
            out@ == disc_points(radius as int, center, i as int),
        decreases n - i,
    {
        proof {
            assert(d != i32::MIN) by (nonlinear_arith)
                requires
                    n == d * d,
                    n <= i32::MAX,
            {
                if d == i32::MIN {
                    assert(d * d > i32::MAX);
                }
            }
        }
        let mq = crate::grid::div_rem(i, d);
        let ghost dd = 2 * (radius as int);
        assert(mq.0 == tmod(i as int, dd));
        assert(mq.1 == tdiv(i as int, dd));
        let x = mq.0 - rr;
        let y = mq.1 - rr;
        let inside = x * x + y * y < r2;
        let point = (cx + x, cy + y);
        if inside {
            out.push(point);
        }
        i = i + 1;
    }
    proof {
        if radius >= 0 {
            lemma_disc_points_exact(radius as int, center, 4 * radius * radius);
            lemma_disc_points_in_circle(radius as int, center, 4 * radius * radius);
            assert forall|p: (i32, i32)| #[trigger] out@.contains(p) <==> in_circle(radius as int, center, p) by {
                if out@.contains(p) {
                    let m = choose|m: int| 0 <= m < out@.len() && out@[m] == p;
                    assert(in_circle(radius as int, center, out@[m]));
                }
                if in_circle(radius as int, center, p) {
                    lemma_circle_point_listed(radius as int, center, p);
                }
            }
        }
    }
    out
}

/// `p` is the point of a kept position among the first `k`.
spec fn disc_listed_from(r: int, center: (i32, i32), k: int, p: (i32, i32)) -> bool {
    exists|j: int| 0 <= j < k && disc_kept(r, j) && p == #[trigger] disc_point(r, center, j)
}

/// Distinct positions of the square of side `2r` give distinct points.
proof fn lemma_disc_point_distinct(r: int, center: (i32, i32), i: int, j: int)
    requires
        disc_fits(r, center),
        r > 0,
        0 <= i < 4 * r * r,
        0 <= j < 4 * r * r,
        i != j,
    ensures
        disc_point(r, center, i) != disc_point(r, center, j),
{
    let d = 2 * r;
    assert(d * d == 4 * r * r) by (nonlinear_arith)
        requires
            d == 2 * r,
    ;
    let xi = tmod(i, d) - r;
    let xj = tmod(j, d) - r;
    assert(fits(center.0 + xi) && fits(center.1 + tdiv(i, d) - r));
    assert(fits(center.0 + xj) && fits(center.1 + tdiv(j, d) - r));
    if disc_point(r, center, i) == disc_point(r, center, j) {
        assert(i % d == j % d);
        assert(i / d == j / d);
        vstd::arithmetic::div_mod::lemma_fundamental_div_mod(i, d);
        vstd::arithmetic::div_mod::lemma_fundamental_div_mod(j, d);
    }
}

/// The first `k` positions keep each kept position's point, once, and
/// nothing else.
proof fn lemma_disc_points_exact(r: int, center: (i32, i32), k: int)
    requires
        disc_fits(r, center),
        r >= 0,
        0 <= k <= 4 * r * r,
    ensures
        disc_points(r, center, k).no_duplicates(),
        forall|m: int| 0 <= m < disc_points(r, center, k).len() ==> #[trigger] disc_listed_from(
            r,
            center,
            k,
            disc_points(r, center, k)[m],
        ),
        forall|j: int| 0 <= j < k && disc_kept(r, j) ==> disc_points(r, center, k).contains(
            #[trigger] disc_point(r, center, j),
        ),
    decreases k,
{
    if k > 0 {
        lemma_disc_points_exact(r, center, k - 1);
        let prev = disc_points(r, center, k - 1);
        let all = disc_points(r, center, k);
        let i = k - 1;
        assert(r > 0) by (nonlinear_arith)
            requires
                r >= 0,
                0 < k <= 4 * r * r,
        ;
        if disc_kept(r, i) {
            let q = disc_point(r, center, i);
            assert(all == prev.push(q));
            assert(!prev.contains(q)) by {
                if prev.contains(q) {
                    let m = choose|m: int| 0 <= m < prev.len() && prev[m] == q;
                    assert(disc_listed_from(r, center, k - 1, prev[m]));
                    let j = choose|j: int| 0 <= j < k - 1 && disc_kept(r, j) && prev[m] == #[trigger] disc_point(r, center, j);
                    lemma_disc_point_distinct(r, center, i, j);
                }
            }
            lemma_no_dup_push(prev, q);
            assert forall|m: int| 0 <= m < all.len() implies #[trigger] disc_listed_from(r, center, k, all[m]) by {
                if m < prev.len() {
                    assert(all[m] == prev[m]);
                    assert(disc_listed_from(r, center, k - 1, prev[m]));
                    let j = choose|j: int| 0 <= j < k - 1 && disc_kept(r, j) && prev[m] == #[trigger] disc_point(r, center, j);
                    assert(0 <= j < k && disc_kept(r, j) && all[m] == disc_point(r, center, j));
                } else {
                    assert(0 <= i < k && disc_kept(r, i) && all[m] == disc_point(r, center, i));
                }
            }
            assert forall|j: int| 0 <= j < k && disc_kept(r, j) implies all.contains(#[trigger] disc_point(r, center, j)) by {
                lemma_push_contains(prev, q, disc_point(r, center, j));
            }
        } else {
            assert(all == prev);
            assert forall|j: int| 0 <= j < k && disc_kept(r, j) implies all.contains(#[trigger] disc_point(r, center, j)) by {
                assert(j != i);
            }
            assert forall|m: int| 0 <= m < all.len() implies #[trigger] disc_listed_from(r, center, k, all[m]) by {
                assert(disc_listed_from(r, center, k - 1, prev[m]));
                let j = choose|j: int| 0 <= j < k - 1 && disc_kept(r, j) && prev[m] == #[trigger] disc_point(r, center, j);
                assert(0 <= j < k && disc_kept(r, j) && all[m] == disc_point(r, center, j));
            }
        }
    } else {
        assert(disc_points(r, center, k).len() == 0);
    }
}

/// A point strictly inside the circle is the point of a kept position.
proof fn lemma_circle_point_listed(r: int, center: (i32, i32), p: (i32, i32))
    requires
        disc_fits(r, center),
        r >= 0,
        in_circle(r, center, p),
    ensures
        disc_points(r, center, 4 * r * r).contains(p),
{
    let x = p.0 - center.0;
    let y = p.1 - center.1;
    let d = 2 * r;
    assert(-r < x < r && -r < y < r) by (nonlinear_arith)
        requires
            x * x + y * y < r * r,
            r >= 0,
    {
        if x >= r || x <= -r {
            assert(x * x >= r * r);
        }
        if y >= r || y <= -r {
            assert(y * y >= r * r);
        }
    }
    let i = (y + r) * d + (x + r);
    assert(0 <= i < d * d) by (nonlinear_arith)
        requires
            0 <= x + r < d,
            0 <= y + r < d,
            i == (y + r) * d + (x + r),
    ;
    assert(d * d == 4 * r * r) by (nonlinear_arith)
        requires
            d == 2 * r,
    ;
    vstd::arithmetic::div_mod::lemma_fundamental_div_mod_converse_mod(i, d, y + r, x + r);
    vstd::arithmetic::div_mod::lemma_fundamental_div_mod_converse_div(i, d, y + r, x + r);
    assert(tmod(i, d) == x + r);
    assert(tdiv(i, d) == y + r);
    assert(disc_point(r, center, i) == p);
    assert(disc_kept(r, i));
    lemma_disc_points_exact(r, center, 4 * r * r);
}

/// Every position kept lies strictly within the circle of radius `r` around
/// the center.
pub proof fn lemma_disc_points_in_circle(r: int, center: (i32, i32), k: int)
    requires
        disc_fits(r, center),
        0 <= k <= 4 * r * r,
    ensures
        forall|m: int| 0 <= m < disc_points(r, center, k).len() ==> {
            let p = #[trigger] disc_points(r, center, k)[m];
            (p.0 - center.0) * (p.0 - center.0) + (p.1 - center.1) * (p.1 - center.1) < r * r
        },
    decreases k,
{
    if k > 0 {
        lemma_disc_points_in_circle(r, center, k - 1);
        let prev = disc_points(r, center, k - 1);
        let i = k - 1;
        let d = 2 * r;
        assert(d * d == 4 * r * r) by (nonlinear_arith)
            requires
                d == 2 * r,
        ;
        let x = tmod(i, d) - r;
        let y = tdiv(i, d) - r;
        assert(fits(center.0 + x) && fits(center.1 + y));
        let all = disc_points(r, center, k);
        assert forall|m: int| 0 <= m < all.len() implies {
            let p = #[trigger] all[m];
            (p.0 - center.0) * (p.0 - center.0) + (p.1 - center.1) * (p.1 - center.1) < r * r
        } by {
            if m < prev.len() {
                assert(all[m] == prev[m]);
            } else {
                assert(all[m] == ((center.0 + x) as i32, (center.1 + y) as i32));
                assert((center.0 + x) - center.0 == x);
                assert((center.1 + y) - center.1 == y);
            }
        }
    }
}

} // verus!
