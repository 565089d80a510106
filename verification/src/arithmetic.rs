use vstd::prelude::*;

verus! {

use vstd::arithmetic::div_mod::lemma_fundamental_div_mod;
use vstd::arithmetic::div_mod::lemma_div_is_ordered_by_denominator;
use vstd::arithmetic::mul::lemma_mul_inequality;

/// The initial Newton guess `n / 2` is at or above the integer square root
/// of `n` whenever `n >= 2`, i.e. `(n / 2 + 1)^2 > n`.
proof fn lemma_newton_init(n: int)
    requires
        2 <= n,
    ensures
        n < (n / 2 + 1) * (n / 2 + 1),
{
    let x = n / 2;
    lemma_fundamental_div_mod(n, 2);
    assert(2 * x + 2 >= n + 1);
    assert((n + 1) * (n + 1) > 4 * n) by (nonlinear_arith)
        requires
            n >= 2,
    ;
    assert((2 * x + 2) * (2 * x + 2) >= (n + 1) * (n + 1)) by (nonlinear_arith)
        requires
            2 * x + 2 >= n + 1 && n + 1 >= 0,
    ;
    assert((2 * x + 2) * (2 * x + 2) == 4 * ((x + 1) * (x + 1))) by (nonlinear_arith);
    assert(4 * ((x + 1) * (x + 1)) > 4 * n);
}

/// One Newton iterate `(x + n / x) / 2` never falls below the integer square
/// root of `n`: by the arithmetic-geometric mean inequality its successor
/// squared exceeds `n`.
proof fn lemma_newton_step(n: int, x: int)
    requires
        1 <= x,
        0 <= n,
    ensures
        n < ((x + n / x) / 2 + 1) * ((x + n / x) / 2 + 1),
{
    let q = n / x;
    let y = (x + q) / 2;
    lemma_fundamental_div_mod(n, x);
    assert(q >= 0) by (nonlinear_arith)
        requires
            x >= 1 && n >= 0 && n == x * q + n % x && 0 <= n % x < x,
    ;
    assert(n < x * (q + 1)) by (nonlinear_arith)
        requires
            n == x * q + n % x && n % x < x,
    ;
    lemma_fundamental_div_mod(x + q, 2);
    assert(2 * y + 2 >= x + q + 1);
    assert((x + q + 1) * (x + q + 1) >= 4 * (x * (q + 1))) by (nonlinear_arith);
    assert((2 * y + 2) * (2 * y + 2) >= (x + q + 1) * (x + q + 1)) by (nonlinear_arith)
        requires
            2 * y + 2 >= x + q + 1 && x + q + 1 >= 0,
    ;
    assert((2 * y + 2) * (2 * y + 2) == 4 * ((y + 1) * (y + 1))) by (nonlinear_arith);
    assert(4 * ((y + 1) * (y + 1)) >= 4 * (x * (q + 1)));
    assert(4 * (x * (q + 1)) > 4 * n);
}

/// Integer square root by Newton's method: the result is the largest
/// integer whose square does not exceed `n`.
pub fn integer_sqrt(n: u128) -> (r: u128)
    ensures
        (r as int) * (r as int) <= n as int,
        (n as int) < (r as int + 1) * (r as int + 1),
{
    if n < 2 {
        proof {
            assert((n as int) * (n as int) <= n as int && (n as int) < (n as int + 1) * (n as int
                + 1)) by (nonlinear_arith)
                requires
                    0 <= n < 2,
            ;
        }
        return n;
    }
    proof {
        lemma_newton_init(n as int);
    }
    let mut x: u128 = n / 2;
    loop
        invariant
            1 <= x,
            x as int <= n as int / 2,
            2 <= n,
            (n as int) < (x as int + 1) * (x as int + 1),
        decreases x,
    {
        proof {
            lemma_fundamental_div_mod(n as int, 2);
            if x >= 2 {
                lemma_div_is_ordered_by_denominator(n as int, 2, x as int);
                assert(x as int + n as int / (x as int) <= n as int);
            } else {
                assert(x == 1);
                assert((x as int + 1) * (x as int + 1) == 4) by (nonlinear_arith)
                    requires
                        x == 1,
                ;
                assert(n < 4);
            }
        }
        let y = (x + n / x) / 2;
        if y >= x {
            proof {
                let q = n as int / x as int;
                lemma_fundamental_div_mod(x as int + q, 2);
                assert(q >= x);
                lemma_fundamental_div_mod(n as int, x as int);
                lemma_mul_inequality(x as int, q, x as int);
                assert(q * (x as int) == (x as int) * q) by (nonlinear_arith);
                assert((x as int) * (x as int) <= n as int);
            }
            return x;
        }
        proof {
            lemma_newton_step(n as int, x as int);
        }
        x = y;
    }
}

} // verus!
