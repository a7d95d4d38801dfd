//! Grids of chunk coordinates: all positions of a square grid, and those of
//! a square or a disc around a point.
use vstd::prelude::*;

verus! {

/// Rust's quotient of a non-negative `a` by a non-zero `b` (rounded toward
/// zero).
pub open spec fn tdiv(a: int, b: int) -> int {
    if b > 0 {
        a / b
    } else {
        -(a / -b)
    }
}

/// Rust's remainder of a non-negative `a` by a non-zero `b` (with the sign of
/// `a`).
pub open spec fn tmod(a: int, b: int) -> int {
    if b > 0 {
        a % b
    } else {
        a % -b
    }
}

/// Quotient and remainder of a non-negative `a` by `b`, as Rust computes
/// them.
pub(crate) fn div_rem(a: i32, b: i32) -> (r: (i32, i32))
    requires
        a >= 0,
        b != 0,
        b != i32::MIN,
    ensures
        r.0 == tmod(a as int, b as int),
        r.1 == tdiv(a as int, b as int),
{
    if b > 0 {
        (a % b, a / b)
    } else {
        let nb = -b;
        (a % nb, -(a / nb))
    }
}

/// Takes a size, squares it, and returns the (x, y) coordinates of the grid,
/// row by row: position `i` holds `(i % size, i / size)`.
pub fn iter_xy(size: i32) -> (r: Vec<(i32, i32)>)
    requires
        size * size <= i32::MAX,
    ensures
        r@.len() == size * size,
        forall|i: int| 0 <= i < size * size ==> #[trigger] r@[i] == ((tmod(i, size as int)) as i32, (tdiv(i, size as int)) as i32),
{
    assert(size * size >= 0) by (nonlinear_arith);
    let n = size * size;
    let mut r: Vec<(i32, i32)> = Vec::new();
    let mut idx: i32 = 0;
    while idx < n
        invariant
            n == size * size,
            0 <= idx <= n,
            size != 0 || n == 0,
            r@.len() == idx,
            forall|i: int| 0 <= i < idx ==> #[trigger] r@[i] == ((tmod(i, size as int)) as i32, (tdiv(i, size as int)) as i32),
        decreases n - idx,
    {
        proof {
            assert(size != i32::MIN) by (nonlinear_arith)
                requires
                    n == size * size,
                    n <= i32::MAX,
            {
                if size == i32::MIN {
                    assert(size * size > i32::MAX);
                }
            }
        }
        let (x, y) = div_rem(idx, size);
        r.push((x, y));
        idx = idx + 1;
    }
    r
}

} // verus!
