//! Sieve of Eratosthenes: all primes from 2 to N, in ascending order.

use vstd::prelude::*;
use vstd::arithmetic::div_mod::lemma_fundamental_div_mod;
use vstd::arithmetic::div_mod::lemma_fundamental_div_mod_converse_mod;
use vstd::arithmetic::div_mod::lemma_mod_division_less_than_divisor;

verus! {

/// `p` is prime: at least 2, with no divisor strictly between 1 and itself.
pub open spec fn is_prime(p: int) -> bool {
    p >= 2 && forall|d: int| 2 <= d < p ==> #[trigger] (p % d) != 0
}

/// `m` has a prime factor smaller than `bound` whose square does not
/// exceed `m`: exactly the numbers struck out by the sieve's passes for the
/// primes below `bound`.
spec fn struck(m: int, bound: int) -> bool {
    exists|p: int| 2 <= p < bound && is_prime(p) && #[trigger] (m % p) == 0 && p * p <= m
}

/// Every composite number has a prime factor whose square does not exceed it.
proof fn lemma_smallest_factor(m: int) -> (p: int)
    requires
        m >= 2,
        !is_prime(m),
    ensures
        2 <= p < m,
        is_prime(p),
        m % p == 0,
        p * p <= m,
    decreases m,
{
    let d = choose|d: int| 2 <= d < m && #[trigger] (m % d) == 0;
    lemma_fundamental_div_mod(m, d);
    let e = m / d;
    assert(m == d * e);
    assert(e >= 2 && e < m) by (nonlinear_arith)
        requires
            m == d * e && 2 <= d < m,
    ;
    let a = if d <= e {
        d
    } else {
        e
    };
    let b = if d <= e {
        e
    } else {
        d
    };
    assert(d * e == e * d) by (nonlinear_arith);
    assert(m == a * b && a <= b);
    assert(a * a <= m) by (nonlinear_arith)
        requires
            m == a * b && 2 <= a <= b,
    ;
    assert(m % a == 0) by {
        if a == d {
        } else {
            lemma_fundamental_div_mod_converse_mod(m, e, d, 0);
        }
    }
    if is_prime(a) {
        a
    } else {
        let q = lemma_smallest_factor(a);
        let c = a / q;
        lemma_fundamental_div_mod(a, q);
        assert(a == q * c);
        assert(m == q * (c * b) && q * q <= m) by (nonlinear_arith)
            requires
                m == a * b && a == q * c && q * q <= a && b >= 2 && a >= 2 && q >= 2,
        ;
        assert(c * b >= 0) by (nonlinear_arith)
            requires
                m == q * (c * b) && m >= 2 && q >= 2,
        ;
        lemma_fundamental_div_mod_converse_mod(m, q, c * b, 0);
        q
    }
}

/// A prime factor with square below `m` is a proper divisor.
proof fn lemma_factor_is_proper(m: int, p: int)
    requires
        m >= 2,
        p >= 2,
        p * p <= m,
    ensures
        p < m,
{
    assert(2 * p <= p * p) by (nonlinear_arith)
        requires
            p >= 2,
    ;
}

/// For a positive `i`, `i <= n / i` says exactly that `i * i <= n`.
proof fn lemma_square_via_div(i: int, n: int)
    requires
        1 <= i,
        0 <= n,
    ensures
        (i <= n / i) <==> (i * i <= n),
{
    lemma_fundamental_div_mod(n, i);
    lemma_mod_division_less_than_divisor(n, i);
    let q = n / i;
    let r = n % i;
    assert((i <= q ==> i * i <= n) && (i * i <= n ==> i <= q)) by (nonlinear_arith)
        requires
            n == i * q + r && 0 <= r < i && i >= 1,
    ;
}

/// Two multiples of `i` within a window narrower than `i` coincide.
proof fn lemma_multiple_window(i: int, j: int, m: int)
    requires
        1 <= i,
        j % i == 0,
        m % i == 0,
        j <= m < j + i,
    ensures
        m == j,
{
    lemma_fundamental_div_mod(j, i);
    lemma_fundamental_div_mod(m, i);
    assert(m == j) by (nonlinear_arith)
        requires
            j == i * (j / i) && m == i * (m / i) && j <= m < j + i && i >= 1,
    ;
}

/// All primes in `[2, n]`, in strictly ascending order: every listed number
/// is prime and in range, and every prime in range is listed.
///
/// `n` must be at least 1 (the marking table always holds entries for 0 and
/// 1) and is capped so that no step of the marking walk can overflow a
/// machine word.
pub fn sieve(n: usize) -> (primes: Vec<usize>)
    requires
        1 <= n <= 0x4000_0000,
    ensures
        forall|t: int|
            0 <= t < primes@.len() ==> 2 <= #[trigger] primes@[t] <= n && is_prime(
                primes@[t] as int,
            ),
        forall|t1: int, t2: int|
            0 <= t1 < t2 < primes@.len() ==> primes@[t1] < primes@[t2],
        forall|q: int|
            2 <= q <= n && is_prime(q) ==> exists|t: int|
                0 <= t < primes@.len() && #[trigger] primes@[t] == q,
{
    let mut flags: Vec<bool> = Vec::new();
    let mut s: usize = 0;
    while s < n + 1
        invariant
            n <= 0x4000_0000,
            s <= n + 1,
            flags@.len() == s,
            forall|m: int| 0 <= m < s ==> (#[trigger] flags@[m]) == true,
        decreases n + 1 - s,
    {
        flags.push(true);
        s += 1;
    }
    flags.set(0, false);
    flags.set(1, false);
    let mut i: usize = 2;
    while i <= n / i
        invariant
            n <= 0x4000_0000,
            2 <= i,
            flags@.len() == n + 1,
            flags@[0] == false,
            flags@[1] == false,
            forall|m: int| 2 <= m <= n ==> ((#[trigger] flags@[m]) <==> !struck(m, i as int)),
        decreases n + 2 - i,
    {
        proof {
            lemma_square_via_div(i as int, n as int);
            assert(i <= i * i && 4 <= i * i) by (nonlinear_arith)
                requires
                    2 <= i,
            ;
        }
        if flags[i] {
            proof {
                // An unstruck candidate is prime: a composite would have a
                // prime factor below itself, with square not above it, and
                // that factor would already have struck it out.
                if !is_prime(i as int) {
                    let q = lemma_smallest_factor(i as int);
                    assert(struck(i as int, i as int));
                }
            }
            let mut j = i * i;
            proof {
                lemma_fundamental_div_mod_converse_mod(j as int, i as int, i as int, 0);
            }
            while j <= n
                invariant
                    n <= 0x4000_0000,
                    2 <= i,
                    i * i <= n,
                    is_prime(i as int),
                    i * i <= j,
                    j % i == 0,
                    flags@.len() == n + 1,
                    flags@[0] == false,
                    flags@[1] == false,
                    forall|m: int|
                        2 <= m <= n ==> ((#[trigger] flags@[m]) <==> !(struck(m, i as int) || (m % (
                        i as int) == 0 && i * i <= m && m < j))),
                decreases n + i - j,
            {
                proof {
                    assert(i <= i * i && 4 <= i * i) by (nonlinear_arith)
                        requires
                            2 <= i,
                    ;
                }
                flags.set(j, false);
                proof {
                    assert forall|m: int|
                        2 <= m <= n implies ((#[trigger] flags@[m]) <==> !(struck(m, i as int) || (
                        m % (i as int) == 0 && i * i <= m && m < j + i))) by {
                        if m % (i as int) == 0 && i * i <= m && j <= m < j + i {
                            lemma_multiple_window(i as int, j as int, m);
                        }
                    }
                }
                proof {
                    lemma_fundamental_div_mod(j as int, i as int);
                    assert((i as int) * (j as int / (i as int) + 1) == (i as int) * (j as int / (
                    i as int)) + i) by (nonlinear_arith);
                    lemma_fundamental_div_mod_converse_mod(
                        j as int + i as int,
                        i as int,
                        j as int / (i as int) + 1,
                        0,
                    );
                }
                j += i;
            }
            proof {
                assert forall|m: int|
                    2 <= m <= n implies ((#[trigger] flags@[m]) <==> !struck(m, i as int + 1)) by {
                    if struck(m, i as int + 1) {
                        let p = choose|p: int|
                            2 <= p < i as int + 1 && is_prime(p) && #[trigger] (m % p) == 0 && p * p
                                <= m;
                        if p < i as int {
                            assert(struck(m, i as int));
                        } else {
                            assert(m % (i as int) == 0 && i * i <= m);
                        }
                    }
                    if struck(m, i as int) {
                        let p = choose|p: int|
                            2 <= p < i as int && is_prime(p) && #[trigger] (m % p) == 0 && p * p
                                <= m;
                        assert(struck(m, i as int + 1));
                    }
                    if m % (i as int) == 0 && i * i <= m {
                        assert(struck(m, i as int + 1));
                    }
                }
            }
        } else {
            proof {
                // A struck candidate is composite, so no pass is skipped for
                // a prime: the struck set is unchanged when `i` is ruled out.
                assert(struck(i as int, i as int));
                let pi = choose|p: int|
                    2 <= p < i as int && is_prime(p) && #[trigger] ((i as int) % p) == 0 && p * p
                        <= i as int;
                assert(!is_prime(i as int));
                assert forall|m: int|
                    2 <= m <= n implies ((#[trigger] flags@[m]) <==> !struck(m, i as int + 1)) by {
                    if struck(m, i as int + 1) {
                        let p = choose|p: int|
                            2 <= p < i as int + 1 && is_prime(p) && #[trigger] (m % p) == 0 && p * p
                                <= m;
                        assert(p != i as int);
                        assert(struck(m, i as int));
                    }
                    if struck(m, i as int) {
                        assert(struck(m, i as int + 1));
                    }
                }
            }
        }
        i += 1;
    }
    proof {
        // Past the square root, being unstruck is the same as being prime.
        lemma_square_via_div(i as int, n as int);
        assert forall|m: int| 2 <= m <= n implies ((flags@[m] <==> is_prime(m))) by {
            if struck(m, i as int) {
                let p = choose|p: int|
                    2 <= p < i as int && is_prime(p) && #[trigger] (m % p) == 0 && p * p <= m;
                lemma_factor_is_proper(m, p);
                assert(!is_prime(m));
            }
            if m <= n && !is_prime(m) {
                let q = lemma_smallest_factor(m);
                assert(q < i as int) by (nonlinear_arith)
                    requires
                        q * q <= m && m <= n && n < i * i && q >= 2 && i >= 2,
                ;
                assert(struck(m, i as int));
            }
        }
    }
    let mut primes: Vec<usize> = Vec::new();
    let mut m: usize = 0;
    while m < n + 1
        invariant
            n <= 0x4000_0000,
            m <= n + 1,
            flags@.len() == n + 1,
            forall|w: int| 2 <= w <= n ==> ((#[trigger] flags@[w]) <==> is_prime(w)),
            flags@[0] == false,
            flags@[1] == false,
            forall|t: int|
                0 <= t < primes@.len() ==> 2 <= #[trigger] primes@[t] && primes@[t] < m
                    && primes@[t] <= n && is_prime(primes@[t] as int),
            forall|t1: int, t2: int| 0 <= t1 < t2 < primes@.len() ==> primes@[t1] < primes@[t2],
            forall|q: int|
                2 <= q < m && q <= n && is_prime(q) ==> exists|t: int|
                    0 <= t < primes@.len() && #[trigger] primes@[t] == q,
        decreases n + 1 - m,
    {
        let ghost oldp = primes@;
        if flags[m] {
            primes.push(m);
        }
        proof {
            assert forall|q: int|
                2 <= q < m + 1 && q <= n && is_prime(q) implies exists|t: int|
                0 <= t < primes@.len() && #[trigger] primes@[t] == q by {
                if q == m {
                    assert(primes@[primes@.len() - 1] == q);
                } else {
                    let t0 = choose|t: int| 0 <= t < oldp.len() && #[trigger] oldp[t] == q;
                    assert(primes@[t0] == q);
                }
            }
        }
        m += 1;
    }
    primes
}

} // verus!
