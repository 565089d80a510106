use vstd::prelude::*;

verus! {

use crate::arithmetic::integer_sqrt;
use crate::getters::divisor_sum;
use crate::getters::divisor_sum_upto;
use crate::getters::get_divisors;
use crate::getters::seq_sum;
use vstd::arithmetic::div_mod::lemma_fundamental_div_mod;
use vstd::arithmetic::div_mod::lemma_mod_multiples_basic;
use vstd::arithmetic::mul::lemma_mul_inequality;

/// `n` is prime: at least 2, and no integer strictly between 1 and `n`
/// divides it.
pub open spec fn prime(n: int) -> bool {
    n >= 2 && forall|d: int| 2 <= d < n ==> #[trigger] (n % d) != 0
}

/// `m` is a power of two (`1`, `2`, `4`, ...).
pub open spec fn power_of_two(m: nat) -> bool
    decreases m,
{
    if m == 0 {
        false
    } else if m == 1 {
        true
    } else {
        m % 2 == 0 && power_of_two(m / 2)
    }
}

/// Sum of the proper divisors of `n` (every divisor but `n` itself).
pub open spec fn proper_divisor_sum(n: int) -> int {
    divisor_sum(n) - n
}

/// A positive integer clears the low-bit test `m & (m - 1) == 0` exactly
/// when it is a power of two.
proof fn lemma_power_of_two_bit_test(m: u128)
    requires
        m >= 1,
    ensures
        (m & ((m - 1) as u128) == 0) <==> power_of_two(m as nat),
    decreases m,
{
    if m == 1 {
        assert(1u128 & 0u128 == 0) by (bit_vector);
    } else if m % 2 == 0 {
        assert((m & ((m - 1) as u128) == 0) <==> ((m / 2) & ((m / 2 - 1) as u128) == 0)) by (bit_vector)
            requires
                m % 2 == 0 && m >= 2,
        ;
        lemma_power_of_two_bit_test(m / 2);
    } else {
        assert(m & ((m - 1) as u128) != 0) by (bit_vector)
            requires
                m % 2 == 1 && m >= 3,
        ;
    }
}

/// `n` is one less than a power of two (a Mersenne-form number).
pub fn is_mersenne_number(n: u128) -> (r: bool)
    requires
        n < u128::MAX,
    ensures
        r == power_of_two((n + 1) as nat),
{
    let m = n + 1;
    proof {
        lemma_power_of_two_bit_test(m);
    }
    (m > 0) && ((m & (m - 1)) == 0)
}

/// A number at least 2 with no divisor in `[2, r]`, where `r` is its integer
/// square root, has no divisor in `[2, n)` at all: any factorization
/// `n == d * e` puts the smaller factor at or below the square root.
proof fn lemma_no_factor_up_to_sqrt(n: int, r: int)
    requires
        2 <= n,
        1 <= r,
        r * r <= n,
        n < (r + 1) * (r + 1),
        forall|d: int| 2 <= d <= r ==> #[trigger] (n % d) != 0,
    ensures
        prime(n),
{
    assert forall|d: int| 2 <= d < n implies #[trigger] (n % d) != 0 by {
        if n % d == 0 {
            let e = n / d;
            lemma_fundamental_div_mod(n, d);
            assert(n == d * e);
            assert(e >= 2) by (nonlinear_arith)
                requires
                    n == d * e && 2 <= d && d < n,
            ;
            lemma_mod_multiples_basic(d, e);
            assert((d * e) % e == 0);
            if d > r {
                assert(e <= r) by (nonlinear_arith)
                    requires
                        n == d * e && n < (r + 1) * (r + 1) && d >= r + 1 && r >= 1 && e >= 2,
                ;
                assert(n % e != 0);
            }
        }
    }
}

/// `n` is prime: trial division by every candidate up to the integer square
/// root of `n`.
pub fn is_prime(n: u128) -> (r: bool)
    ensures
        r == prime(n as int),
{
    if n == 0 || n == 1 {
        return false;
    }
    if n == 2 {
        return true;
    }
    let root = integer_sqrt(n);
    proof {
        assert((root as int) < n as int) by (nonlinear_arith)
            requires
                3 <= n && 0 <= root && (root as int) * (root as int) <= n as int,
        ;
    }
    let mut i: u128 = 2;
    while i <= root
        invariant
            2 <= i,
            i as int <= root as int + 1,
            3 <= n,
            (root as int) < n as int,
            (root as int) * (root as int) <= n as int,
            (n as int) < (root as int + 1) * (root as int + 1),
            forall|d: int| 2 <= d < i ==> #[trigger] ((n as int) % d) != 0,
        decreases root + 1 - i,
    {
        if n % i == 0 {
            proof {
                assert((root as int) < n as int) by (nonlinear_arith)
                    requires
                        2 <= root && (root as int) * (root as int) <= n as int,
                ;
                assert(2 <= i as int && (i as int) < n as int && (n as int) % (i as int) == 0);
            }
            return false;
        }
        i = i + 1;
    }
    proof {
        assert(1 <= root) by (nonlinear_arith)
            requires
                3 <= n && (n as int) < (root as int + 1) * (root as int + 1) && 0 <= root,
        ;
        lemma_no_factor_up_to_sqrt(n as int, root as int);
    }
    true
}

/// `n` is not prime; `0` and `1` count as composite here.
pub fn is_composite(n: u128) -> (r: bool)
    ensures
        r == !prime(n as int),
{
    !is_prime(n)
}

proof fn lemma_divisor_sum_upto_nonneg(n: int, k: int)
    ensures
        divisor_sum_upto(n, k) >= 0,
    decreases k,
{
    if k > 0 {
        lemma_divisor_sum_upto_nonneg(n, k - 1);
    }
}

proof fn lemma_divisor_sum_upto_bound(n: int, k: int)
    requires
        0 <= k <= n,
    ensures
        divisor_sum_upto(n, k) <= k * n,
    decreases k,
{
    if k > 0 {
        lemma_divisor_sum_upto_bound(n, k - 1);
        assert((k - 1) * n + n == k * n) by (nonlinear_arith);
    } else {
        assert(0 * n == 0) by (nonlinear_arith);
    }
}

/// The divisor sum of a positive `n` includes the term `n` itself.
proof fn lemma_divisor_sum_at_least_n(n: int)
    requires
        1 <= n,
    ensures
        divisor_sum(n) >= n,
{
    lemma_mod_multiples_basic(1, n);
    assert(n % n == 0);
    lemma_divisor_sum_upto_nonneg(n, n - 1);
}

proof fn lemma_seq_sum_take_next(s: Seq<u128>, j: int)
    requires
        0 <= j < s.len(),
    ensures
        seq_sum(s.take(j + 1)) == seq_sum(s.take(j)) + s[j] as int,
{
    assert(s.take(j + 1).drop_last() =~= s.take(j));
    assert(s.take(j + 1).last() == s[j]);
}

proof fn lemma_seq_sum_take_le(s: Seq<u128>, j: int)
    requires
        0 <= j <= s.len(),
    ensures
        seq_sum(s.take(j)) <= seq_sum(s),
    decreases s.len() - j,
{
    if j == s.len() {
        assert(s.take(j) =~= s);
    } else {
        lemma_seq_sum_take_next(s, j);
        lemma_seq_sum_take_le(s, j + 1);
    }
}

/// Sum of the proper divisors of `n`, computed from the full divisor list.
fn sum_of_proper_divisors(n: u128) -> (s: u128)
    requires
        1 <= n,
        n <= u64::MAX as u128,
    ensures
        s as int == proper_divisor_sum(n as int),
{
    proof {
        lemma_divisor_sum_upto_bound(n as int, n as int);
        lemma_divisor_sum_at_least_n(n as int);
        assert((n as int) * (n as int) <= u128::MAX as int) by (nonlinear_arith)
            requires
                0 <= n <= u64::MAX as u128,
        ;
    }
    let divisors: Vec<u128> = get_divisors(n);
    let mut summation: u128 = 0;
    let mut j: usize = 0;
    while j < divisors.len()
        invariant
            0 <= j <= divisors@.len(),
            summation as int == seq_sum(divisors@.take(j as int)),
            seq_sum(divisors@) == divisor_sum(n as int),
            divisor_sum(n as int) <= u128::MAX as int,
            n <= divisor_sum(n as int),
        decreases divisors@.len() - j,
    {
        proof {
            lemma_seq_sum_take_next(divisors@, j as int);
            lemma_seq_sum_take_le(divisors@, j as int + 1);
        }
        summation = summation + divisors[j];
        j = j + 1;
    }
    proof {
        assert(divisors@.take(divisors@.len() as int) =~= divisors@);
    }
    summation - n
}

/// The proper divisors of `n` sum exactly to `n`.
pub fn is_perfect_number(n: u128) -> (r: bool)
    requires
        1 <= n,
        n <= u64::MAX as u128,
    ensures
        r == (proper_divisor_sum(n as int) == n as int),
{
    let summation = sum_of_proper_divisors(n);
    summation == n
}

/// The proper divisors of `n` sum to less than `n`.
pub fn is_deficient_number(n: u128) -> (r: bool)
    requires
        1 <= n,
        n <= u64::MAX as u128,
    ensures
        r == (proper_divisor_sum(n as int) < n as int),
{
    let summation = sum_of_proper_divisors(n);
    summation < n
}

/// The proper divisors of `n` sum to more than `n`.
pub fn is_abundant_number(n: u128) -> (r: bool)
    requires
        1 <= n,
        n <= u64::MAX as u128,
    ensures
        r == (proper_divisor_sum(n as int) > n as int),
{
    let summation = sum_of_proper_divisors(n);
    summation > n
}

/// Every positive integer is exactly one of perfect, deficient or abundant:
/// the three comparisons of the proper-divisor sum against `n` are mutually
/// exclusive and exhaustive.
pub proof fn lemma_classification_trichotomy(n: int)
    requires
        1 <= n,
    ensures
        proper_divisor_sum(n) == n || proper_divisor_sum(n) < n || proper_divisor_sum(n) > n,
        proper_divisor_sum(n) == n ==> !(proper_divisor_sum(n) < n) && !(proper_divisor_sum(n)
            > n),
        proper_divisor_sum(n) < n ==> !(proper_divisor_sum(n) == n) && !(proper_divisor_sum(n)
            > n),
        proper_divisor_sum(n) > n ==> !(proper_divisor_sum(n) == n) && !(proper_divisor_sum(n)
            < n),
{
}

/// No even number above 2 is prime: 2 is a witness divisor.
pub proof fn lemma_even_not_prime(n: int)
    requires
        2 < n,
        n % 2 == 0,
    ensures
        !prime(n),
{
    assert(2 <= 2 < n && n % 2 == 0);
}

} // verus!
