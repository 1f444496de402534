//! Candidate-prime generation by trial division.
//!
//! A number is accepted when no divisor up to its integer square root
//! divides it evenly; the generator walks every candidate up to the bound
//! and returns the full ascending sequence of primes.

use vstd::prelude::*;

verus! {

use vstd::arithmetic::div_mod::lemma_fundamental_div_mod;
use vstd::arithmetic::div_mod::lemma_mod_multiples_basic;
use vstd::arithmetic::div_mod::lemma_div_is_ordered_by_denominator;

/// `n` is prime: at least 2, with no divisor strictly between 1 and `n`.
pub open spec fn is_prime(n: nat) -> bool {
    n >= 2 && forall|d: nat| 2 <= d < n ==> #[trigger] (n % d) != 0
}

/// A number below the square of `m` with no divisor below `m` has no
/// divisor at all.
proof fn lemma_no_divisor_above_sqrt(n: nat, m: nat)
    requires
        n >= 2,
        m >= 2,
        n < m * m,
        forall|j: nat| 2 <= j < m ==> #[trigger] (n % j) != 0,
    ensures
        is_prime(n),
{
    assert forall|k: nat| 2 <= k < n implies #[trigger] (n % k) != 0 by {
        if n % k == 0 && k >= m {
            lemma_fundamental_div_mod(n as int, k as int);
            let q = n as int / k as int;
            assert(n == k * q);
            assert(q >= 2) by (nonlinear_arith)
                requires
                    n == k * q,
                    n >= 2,
                    2 <= k < n,
            ;
            assert(q < m) by (nonlinear_arith)
                requires
                    n == k * q,
                    n < m * m,
                    k >= m,
                    q >= 0,
            ;
            lemma_mod_multiples_basic(k as int, q);
            assert(n % (q as nat) != 0);
            assert(false);
        }
    }
}

/// Whether `n` is prime, decided by trial division up to the square root.
pub fn is_prime_u64(n: u64) -> (r: bool)
    ensures
        r == is_prime(n as nat),
{
    if n < 2 {
        return false;
    }
    let mut d: u64 = 2;
    while d <= n / d
        invariant
            n >= 2,
            2 <= d <= n,
            forall|j: nat| 2 <= j < d ==> #[trigger] ((n as nat) % j) != 0,
        decreases n - d,
    {
        if n % d == 0 {
            proof {
                lemma_div_is_ordered_by_denominator(n as int, 2, d as int);
                assert(d < n);
            }
            return false;
        }
        proof {
            lemma_div_is_ordered_by_denominator(n as int, 2, d as int);
            assert(d < n);
        }
        d = d + 1;
    }
    proof {
        let q = n as int / d as int;
        lemma_fundamental_div_mod(n as int, d as int);
        assert((n as nat) < (d as nat) * (d as nat)) by (nonlinear_arith)
            requires
                n as int == d as int * q + ((n as int) % (d as int)),
                0 <= (n as int) % (d as int),
                (n as int) % (d as int) < d as int,
                q < d as int,
                0 <= q,
        ;
        lemma_no_divisor_above_sqrt(n as nat, d as nat);
    }
    true
}

/// The ascending sequence of every prime no greater than `n`: each element
/// is prime and at most `n`, the elements strictly increase, every prime in
/// range occurs, and for any bound of at least 2 the sequence starts with 2.
pub fn generate_primes_up_to(n: u64) -> (r: Vec<u64>)
    ensures
        forall|i: int| 0 <= i < r@.len() ==> is_prime(#[trigger] r@[i] as nat) && r@[i] <= n,
        forall|i: int, j: int| 0 <= i < j < r@.len() ==> r@[i] < r@[j],
        forall|p: u64| 2 <= p <= n && is_prime(p as nat) ==> r@.contains(p),
        n >= 2 ==> r@.len() >= 1 && r@[0] == 2,
{
    let mut primes: Vec<u64> = Vec::new();
    let mut num: u64 = 2;
    while num < n
        invariant
            2 <= num,
            n >= 2 ==> num <= n,
            n < 2 ==> num == 2,
            forall|i: int| 0 <= i < primes@.len() ==> is_prime(#[trigger] primes@[i] as nat)
                && primes@[i] < num,
            forall|i: int, j: int| 0 <= i < j < primes@.len() ==> primes@[i] < primes@[j],
            forall|p: u64| 2 <= p < num && is_prime(p as nat) ==> primes@.contains(p),
        decreases n - num,
    {
        let ghost pre = primes@;
        let num_is_prime = is_prime_u64(num);
        if num_is_prime {
            primes.push(num);
        }
        proof {
            assert forall|p: u64| 2 <= p < num + 1 && is_prime(p as nat) implies primes@.contains(
                p,
            ) by {
                if p < num {
                    let i = choose|i: int| 0 <= i < pre.len() && pre[i] == p;
                    assert(primes@[i] == p);
                } else {
                    assert(primes@[primes@.len() - 1] == num);
                }
            }
        }
        num = num + 1;
    }
    if n >= 2 {
        let ghost pre = primes@;
        let bound_is_prime = is_prime_u64(n);
        if bound_is_prime {
            primes.push(n);
        }
        proof {
            assert forall|p: u64| 2 <= p <= n && is_prime(p as nat) implies primes@.contains(
                p,
            ) by {
                if p < n {
                    let i = choose|i: int| 0 <= i < pre.len() && pre[i] == p;
                    assert(primes@[i] == p);
                } else {
                    assert(primes@[primes@.len() - 1] == n);
                }
            }
            assert(is_prime(2));
            assert(primes@.contains(2u64));
            let idx = choose|i: int| 0 <= i < primes@.len() && primes@[i] == 2u64;
            if idx > 0 {
                assert(primes@[0] < primes@[idx]);
                assert(is_prime(primes@[0] as nat));
                assert(false);
            }
        }
    }
    primes
}

} // verus!
