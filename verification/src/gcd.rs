//! Greatest common divisor by the Euclidean algorithm.

use vstd::prelude::*;

verus! {

/// `d` divides `x`.
pub open spec fn divides(d: int, x: int) -> bool {
    exists|k: int| x == #[trigger] (k * d)
}

/// Euclid's step keeps the set of common divisors: `d` divides both `x` and
/// `y` exactly when it divides both `y` and `x % y`.
proof fn lemma_euclid_step(x: int, y: int, d: int)
    requires
        y > 0,
    ensures
        (divides(d, x) && divides(d, y)) <==> (divides(d, y) && divides(d, x % y)),
{
    let q = x / y;
    let r = x % y;
    vstd::arithmetic::div_mod::lemma_fundamental_div_mod(x, y);
    if divides(d, x) && divides(d, y) {
        let kx = choose|k: int| x == #[trigger] (k * d);
        let ky = choose|k: int| y == #[trigger] (k * d);
        assert(r == (kx - ky * q) * d) by (nonlinear_arith)
            requires
                x == kx * d,
                y == ky * d,
                r == x - y * q,
        ;
    }
    if divides(d, y) && divides(d, r) {
        let ky = choose|k: int| y == #[trigger] (k * d);
        let kr = choose|k: int| r == #[trigger] (k * d);
        assert(x == (ky * q + kr) * d) by (nonlinear_arith)
            requires
                y == ky * d,
                r == kr * d,
                x == y * q + r,
        ;
    }
}

/// Greatest common divisor: the result divides both arguments, and every
/// common divisor of the arguments divides the result (so none is larger).
/// `gcd(0, 0)` is `0`.
pub fn gcd(a: usize, b: usize) -> (r: usize)
    ensures
        divides(r as int, a as int),
        divides(r as int, b as int),
        forall|d: int| divides(d, a as int) && divides(d, b as int) ==> divides(d, r as int),
{
    let mut x = if a > b {
        a
    } else {
        b
    };
    let mut y = if a > b {
        b
    } else {
        a
    };
    while y > 0
        invariant
            forall|d: int|
                (divides(d, x as int) && divides(d, y as int)) <==> (divides(d, a as int)
                    && divides(d, b as int)),
        decreases y,
    {
        proof {
            assert forall|d: int| (divides(d, y as int) && divides(d, (x % y) as int)) <==> (
            divides(d, a as int) && divides(d, b as int)) by {
                lemma_euclid_step(x as int, y as int, d);
            }
        }
        let tmp = x % y;
        x = y;
        y = tmp;
    }
    proof {
        assert(x as int == 1 * (x as int));
        assert(y as int == 0 * (x as int));
    }
    x
}

} // verus!
