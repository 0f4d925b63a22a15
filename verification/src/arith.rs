//! Small facts about integer division and remainders.

use vstd::prelude::*;

verus! {

/// Division and remainder facts for one fair share `x / d + x % d`.
pub proof fn lemma_share_bounds(x: int, d: int)
    requires
        x >= 0,
        d >= 1,
    ensures
        x == (x / d) * d + x % d,
        0 <= x % d < d,
        x / d >= 0,
        x / d + x % d <= x,
        d * (x / d + x % d) >= x,
{
    assert(x == (x / d) * d + x % d && 0 <= x % d < d && x / d >= 0) by (nonlinear_arith)
        requires
            x >= 0,
            d >= 1,
    ;
    let q = x / d;
    let m = x % d;
    assert(q + m <= q * d + m) by (nonlinear_arith)
        requires
            q >= 0,
            d >= 1,
    ;
    assert(d * (q + m) >= q * d + m) by (nonlinear_arith)
        requires
            q >= 0,
            m >= 0,
            d >= 1,
    ;
}

/// Division is monotone in the dividend.
pub proof fn lemma_div_ordered(x: int, y: int, d: int)
    requires
        0 <= x <= y,
        d >= 1,
    ensures
        x / d <= y / d,
{
    assert(x / d <= y / d) by (nonlinear_arith)
        requires
            0 <= x <= y,
            d >= 1,
    ;
}

/// An exact multiple divides evenly.
pub proof fn lemma_div_exact(c: int, d: int)
    requires
        c >= 0,
        d >= 1,
    ensures
        (c * d) / d == c,
        (c * d) % d == 0,
{
    assert((c * d) / d == c && (c * d) % d == 0) by (nonlinear_arith)
        requires
            c >= 0,
            d >= 1,
    ;
}

/// Floors add up: dividing a sum loses no more than dividing the parts.
pub proof fn lemma_div_plus(p: int, q: int, d: int)
    requires
        p >= 0,
        q >= 0,
        d >= 1,
    ensures
        p / d + q / d <= (p + q) / d,
{
    assert(p / d + q / d <= (p + q) / d) by (nonlinear_arith)
        requires
            p >= 0,
            q >= 0,
            d >= 1,
    ;
}

} // verus!
