use vstd::prelude::*;

verus! {

/// Sum of all divisors of `n` that lie in `[1, k]`.
pub open spec fn divisor_sum_upto(n: int, k: int) -> int
    decreases k,
{
    if k <= 0 {
        0
    } else {
        divisor_sum_upto(n, k - 1) + if n % k == 0 {
            k
        } else {
            0
        }
    }
}

/// Sum of all divisors of `n`.
pub open spec fn divisor_sum(n: int) -> int {
    divisor_sum_upto(n, n)
}

/// Sum of the elements of a sequence of unsigned integers.
pub open spec fn seq_sum(s: Seq<u128>) -> int
    decreases s.len(),
{
    if s.len() == 0 {
        0
    } else {
        seq_sum(s.drop_last()) + s.last() as int
    }
}

proof fn lemma_seq_sum_push(s: Seq<u128>, x: u128)
    ensures
        seq_sum(s.push(x)) == seq_sum(s) + x as int,
{
    assert(s.push(x).drop_last() =~= s);
}

/// All the divisors of `n`, in ascending order, from `1` to `n` inclusive.
pub fn get_divisors(n: u128) -> (r: Vec<u128>)
    requires
        1 <= n,
    ensures
        forall|i: int| 0 <= i < r@.len() ==> 1 <= #[trigger] r@[i] <= n,
        forall|i: int| 0 <= i < r@.len() ==> n as int % (#[trigger] r@[i] as int) == 0,
        forall|i: int, j: int| 0 <= i < j < r@.len() ==> r@[i] < r@[j],
        forall|d: u128| 1 <= d <= n && n as int % (d as int) == 0 ==> #[trigger] r@.contains(d),
        r@.len() >= 1,
        r@[0] == 1,
        r@.last() == n,
        seq_sum(r@) == divisor_sum(n as int),
{
    let mut divisors: Vec<u128> = Vec::new();
    let mut i: u128 = 1;
    while i < n
        invariant
            1 <= i <= n,
            forall|k: int| 0 <= k < divisors@.len() ==> 1 <= #[trigger] divisors@[k] < i,
            forall|k: int|
                0 <= k < divisors@.len() ==> n as int % (#[trigger] divisors@[k] as int) == 0,
            forall|k: int, l: int| 0 <= k < l < divisors@.len() ==> divisors@[k] < divisors@[l],
            forall|d: u128|
                1 <= d < i && n as int % (d as int) == 0 ==> #[trigger] divisors@.contains(d),
            i >= 2 ==> divisors@.len() >= 1 && divisors@[0] == 1,
            seq_sum(divisors@) == divisor_sum_upto(n as int, i as int - 1),
        decreases n - i,
    {
        if n % i == 0 {
            proof {
                lemma_seq_sum_push(divisors@, i);
            }
            let ghost prev = divisors@;
            divisors.push(i);
            proof {
                assert forall|d: u128|
                    1 <= d < i + 1 && n as int % (d as int) == 0 implies #[trigger] divisors@
                    .contains(d) by {
                    if d < i {
                        assert(prev.contains(d));
                        let k = choose|k: int| 0 <= k < prev.len() && prev[k] == d;
                        assert(divisors@[k] == d);
                    } else {
                        assert(divisors@[divisors@.len() - 1] == d);
                    }
                }
            }
        }
        i = i + 1;
    }
    proof {
        lemma_seq_sum_push(divisors@, n);
        assert(n as int % (n as int) == 0);
    }
    let ghost prev = divisors@;
    divisors.push(n);
    proof {
        assert forall|d: u128|
            1 <= d <= n && n as int % (d as int) == 0 implies #[trigger] divisors@.contains(
            d,
        ) by {
            if d < n {
                assert(prev.contains(d));
                let k = choose|k: int| 0 <= k < prev.len() && prev[k] == d;
                assert(divisors@[k] == d);
            } else {
                assert(divisors@[divisors@.len() - 1] == d);
            }
        }
    }
    divisors
}

} // verus!
