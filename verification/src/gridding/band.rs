//! Row-major band storage of a square matrix: row `i` keeps the entries
//! `j ∈ [i − bw, i + bw]` in `2·bw + 1` consecutive slots.

use vstd::prelude::*;

verus! {

/// Entry `(i, j)` of an `n × n` matrix lies within half-bandwidth `bw`.
pub open spec fn in_band(n: int, bw: int, i: int, j: int) -> bool {
    0 <= i < n && 0 <= j < n && i - bw <= j <= i + bw
}

/// The slot of entry `(i, j)`: row `i` starts at `i·(2·bw + 1)`, and the
/// diagonal sits at offset `bw` within it.
pub open spec fn band_slot_spec(bw: int, i: int, j: int) -> int {
    i * (2 * bw + 1) + (j + bw - i)
}

/// The slot of in-band entry `(i, j)`, below `n·(2·bw + 1)`.
pub fn band_slot(n: usize, bw: usize, i: usize, j: usize) -> (k: usize)
    requires
        in_band(n as int, bw as int, i as int, j as int),
        n * (2 * bw + 1) <= usize::MAX,
    ensures
        k == band_slot_spec(bw as int, i as int, j as int),
        k < n * (2 * bw + 1),
{
    assert(2 * bw + 1 <= n * (2 * bw + 1)) by (nonlinear_arith)
        requires
            n >= 1,
            bw >= 0,
    ;
    let stride = 2 * bw + 1;
    assert(i * stride + stride <= n * stride) by (nonlinear_arith)
        requires
            i < n,
            stride > 0,
    ;
    assert(i * stride >= i) by (nonlinear_arith)
        requires
            stride >= 1,
            i >= 0,
    ;
    let offset = j + bw - i;
    i * stride + offset
}

/// Distinct in-band entries occupy distinct slots.
pub proof fn law_band_slots_distinct(n: int, bw: int, i1: int, j1: int, i2: int, j2: int)
    requires
        in_band(n, bw, i1, j1),
        in_band(n, bw, i2, j2),
        (i1, j1) != (i2, j2),
    ensures
        band_slot_spec(bw, i1, j1) != band_slot_spec(bw, i2, j2),
{
    let s = 2 * bw + 1;
    let c1 = j1 + bw - i1;
    let c2 = j2 + bw - i2;
    assert(0 <= c1 < s && 0 <= c2 < s);
    if i1 < i2 {
        assert((i2 - i1) * s >= s) by (nonlinear_arith)
            requires
                i1 < i2,
                s > 0,
        ;
        assert(i2 * s == i1 * s + (i2 - i1) * s) by (nonlinear_arith);
    } else if i2 < i1 {
        assert((i1 - i2) * s >= s) by (nonlinear_arith)
            requires
                i2 < i1,
                s > 0,
        ;
        assert(i1 * s == i2 * s + (i1 - i2) * s) by (nonlinear_arith);
    }
}

} // verus!
