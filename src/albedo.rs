//! The discrete part of the albedo sources: which checker tile a cell is, and which texels
//! a bilinear texture lookup blends.
use vstd::prelude::*;

verus! {

/// The checker tile at cell `(x, y)` is white when the two cell indices have the same
/// parity, black otherwise.
pub open spec fn checker_white(x: nat, y: nat) -> bool {
    x % 2 == y % 2
}

/// Whether the checker tile at cell `(x, y)` is white (see `checker_white`).
pub fn checker_is_white(x: u32, y: u32) -> (r: bool)
    ensures
        r == checker_white(x as nat, y as nat),
{
    let x_even = x % 2 == 0;
    let y_even = y % 2 == 0;
    !((x_even && !y_even) || (y_even && !x_even))
}

/// The checker pattern repeats every two cells along either axis: moving a cell by an even
/// number of cells, in x or in y, keeps its colour.
pub proof fn lemma_checker_period(x: nat, y: nat, k: nat)
    ensures
        checker_white(x + 2 * k, y) == checker_white(x, y),
        checker_white(x, y + 2 * k) == checker_white(x, y),
{
    assert((x + 2 * k) % 2 == x % 2) by (nonlinear_arith);
    assert((y + 2 * k) % 2 == y % 2) by (nonlinear_arith);
}

/// `i` clamped into `0..n` (`n > 0`).
pub open spec fn clamp_index(i: nat, n: nat) -> nat {
    if i < n {
        i
    } else {
        (n - 1) as nat
    }
}

/// The storage positions, in a row-major `w` by `h` texture, of the four texels that a
/// lookup at cell `(u, v)` blends: `(u, v)`, `(u + 1, v)`, `(u, v + 1)` and `(u + 1, v + 1)`,
/// each coordinate clamped to the texture, so that the last row and column repeat at the
/// edge instead of wrapping around.
pub fn texel_corners(u: usize, v: usize, w: usize, h: usize) -> (r: (usize, usize, usize, usize))
    requires
        0 < w,
        0 < h,
        w * h <= usize::MAX,
    ensures
        ({
            let (cu, nu) = (clamp_index(u as nat, w as nat), clamp_index(u as nat + 1, w as nat));
            let (cv, nv) = (clamp_index(v as nat, h as nat), clamp_index(v as nat + 1, h as nat));
            &&& r.0 == cu + cv * w
            &&& r.1 == nu + cv * w
            &&& r.2 == cu + nv * w
            &&& r.3 == nu + nv * w
        }),
        r.0 < w * h,
        r.1 < w * h,
        r.2 < w * h,
        r.3 < w * h,
{
    let cu = if u < w { u } else { w - 1 };
    let nu = if u < w - 1 { u + 1 } else { w - 1 };
    let cv = if v < h { v } else { h - 1 };
    let nv = if v < h - 1 { v + 1 } else { h - 1 };
    proof {
        lemma_cell_index(cu as nat, cv as nat, w as nat, h as nat);
        lemma_cell_index(nu as nat, cv as nat, w as nat, h as nat);
        lemma_cell_index(cu as nat, nv as nat, w as nat, h as nat);
        lemma_cell_index(nu as nat, nv as nat, w as nat, h as nat);
    }
    (cu + cv * w, nu + cv * w, cu + nv * w, nu + nv * w)
}

proof fn lemma_cell_index(i: nat, j: nat, w: nat, h: nat)
    requires
        i < w,
        j < h,
    ensures
        i + j * w < w * h,
{
    assert(i + j * w < w * h) by (nonlinear_arith)
        requires i < w, j < h;
}

} // verus!
