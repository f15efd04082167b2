//! Prime numbers: a primality test by trial division over `6k ± 1`,
//! counting the primes up to a bound, and listing them.

use vstd::prelude::*;
use vstd::arithmetic::div_mod::{lemma_fundamental_div_mod, lemma_mod_multiples_basic};
use vstd::arithmetic::mul::lemma_mul_is_associative;

verus! {

/// `n` is prime: at least 2, and no `d` with `2 <= d < n` divides it.
pub open spec fn prime(n: int) -> bool {
    &&& n >= 2
    &&& forall|d: int| 2 <= d < n ==> #[trigger] (n % d) != 0
}

/// If `d` divides `n` and `k` divides `d`, then `k` divides `n`.
proof fn lemma_divides_transitive(n: int, d: int, k: int)
    requires
        n >= 0,
        d > 0,
        k > 0,
        n % d == 0,
        d % k == 0,
    ensures
        n % k == 0,
{
    lemma_fundamental_div_mod(n, d);
    lemma_fundamental_div_mod(d, k);
    let q = n / d;
    let r = d / k;
    assert(n == (k * r) * q);
    lemma_mul_is_associative(k, r, q);
    assert(n == (r * q) * k) by (nonlinear_arith)
        requires
            n == k * (r * q),
    ;
    lemma_mod_multiples_basic(r * q, k);
}

/// When `d` divides `n` with `2 <= d < n`, and `n < i * i` for some
/// `i <= d`, the cofactor `n / d` is a divisor of `n` with `2 <= n / d < i`.
proof fn lemma_small_cofactor(n: int, d: int, i: int)
    requires
        2 <= d < n,
        n % d == 0,
        i <= d,
        n < i * i,
        i > 0,
    ensures
        2 <= n / d < i,
        n % (n / d) == 0,
{
    lemma_fundamental_div_mod(n, d);
    let q = n / d;
    assert(n == d * q);
    assert(q >= 2) by (nonlinear_arith)
        requires
            n == d * q,
            2 <= d < n,
    ;
    assert(q < i) by (nonlinear_arith)
        requires
            n == d * q,
            i <= d,
            n < i * i,
            i > 0,
    ;
    assert(n == q * d) by (nonlinear_arith)
        requires
            n == d * q,
    ;
    lemma_mod_multiples_basic(d, q);
}

/// For `i > 0`: `i <= n / i` exactly when `i * i <= n`.
proof fn lemma_square_le_iff(n: int, i: int)
    requires
        n >= 0,
        i > 0,
    ensures
        (i <= n / i) <==> (i * i <= n),
{
    lemma_fundamental_div_mod(n, i);
    let q = n / i;
    let r = n % i;
    assert(0 <= r < i);
    if i <= q {
        assert(i * i <= i * q) by (nonlinear_arith)
            requires
                i <= q,
                i > 0,
        ;
    } else {
        assert(i * q + i <= i * i) by (nonlinear_arith)
            requires
                q + 1 <= i,
                i > 0,
        ;
    }
}

/// Whether `n` is prime. Even numbers and multiples of 3 are ruled out
/// first; then only the candidates `6k + 5` and `6k + 7` are tried, up to
/// the square root of `n`.
pub fn is_prime(n: u64) -> (r: bool)
    ensures
        r == prime(n as int),
{
    if n < 2 {
        return false;
    }
    if n < 4 {
        assert(prime(n as int));
        return true;
    }
    if n % 2 == 0 || n % 3 == 0 {
        assert(!prime(n as int)) by {
            if n % 2 == 0 {
                assert((n as int) % 2 == 0);
            } else {
                assert((n as int) % 3 == 0);
            }
        }
        return false;
    }
    let mut i: u64 = 5;
    assert forall|d: int| 2 <= d < i implies #[trigger] ((n as int) % d) != 0 by {
        if d == 4 {
            if (n as int) % 4 == 0 {
                lemma_divides_transitive(n as int, 4, 2);
            }
        }
    }
    while i <= n / i
        invariant
            5 <= i <= n,
            i % 6 == 5,
            (n as int) % 2 != 0,
            (n as int) % 3 != 0,
            forall|d: int| 2 <= d < i ==> #[trigger] ((n as int) % d) != 0,
        decreases n - i,
    {
        proof {
            lemma_square_le_iff(n as int, i as int);
        }
        if n % i == 0 || n % (i + 2) == 0 {
            assert(i * i <= n);
            assert(i + 2 < n) by (nonlinear_arith)
                requires
                    i * i <= n,
                    i >= 5,
            ;
            assert(!prime(n as int)) by {
                if n % i == 0 {
                    assert((n as int) % (i as int) == 0);
                } else {
                    assert((n as int) % ((i + 2) as int) == 0);
                }
            }
            return false;
        }
        let ghost old_i = i as int;
        assert forall|d: int| 2 <= d < old_i + 6 implies #[trigger] ((n as int) % d) != 0 by {
            if d >= old_i && (n as int) % d == 0 {
                if d == old_i + 1 || d == old_i + 3 || d == old_i + 5 {
                    assert(d % 2 == 0);
                    lemma_divides_transitive(n as int, d, 2);
                } else if d == old_i + 4 {
                    assert(d % 3 == 0);
                    lemma_divides_transitive(n as int, d, 3);
                }
            }
        }
        assert(i + 6 <= n) by (nonlinear_arith)
            requires
                i * i <= n,
                i >= 5,
        ;
        i = i + 6;
    }
    proof {
        lemma_square_le_iff(n as int, i as int);
        assert forall|d: int| 2 <= d < n implies #[trigger] ((n as int) % d) != 0 by {
            if d >= i && (n as int) % d == 0 {
                lemma_small_cofactor(n as int, d, i as int);
                let q = (n as int) / d;
                assert((n as int) % q != 0);
            }
        }
    }
    true
}

/// The primes `p` with `2 <= p <= n`, in increasing order.
pub open spec fn primes_through(n: int) -> Seq<int>
    decreases n,
{
    if n < 2 {
        Seq::empty()
    } else if prime(n) {
        primes_through(n - 1).push(n)
    } else {
        primes_through(n - 1)
    }
}

/// The number of primes `p` with `2 <= p <= n`.
pub open spec fn prime_count(n: int) -> nat
    decreases n,
{
    if n < 2 {
        0
    } else if prime(n) {
        prime_count(n - 1) + 1
    } else {
        prime_count(n - 1)
    }
}

/// `prime_count` never decreases.
pub proof fn law_prime_count_monotonic(a: int, b: int)
    requires
        a <= b,
    ensures
        prime_count(a) <= prime_count(b),
    decreases b - a,
{
    if a < b {
        law_prime_count_monotonic(a, b - 1);
    }
}

/// Counting one bound further adds one exactly when the new bound is prime.
pub proof fn law_prime_count_step(n: int)
    requires
        n >= 1,
    ensures
        prime_count(n) == prime_count(n - 1) + if prime(n) { 1nat } else { 0nat },
{
    if n == 1 {
        assert(!prime(1));
    }
}

/// There are at most `n` primes up to `n`.
pub proof fn lemma_prime_count_bound(n: int)
    ensures
        prime_count(n) <= if n < 0 { 0 } else { n },
    decreases n,
{
    if n >= 2 {
        lemma_prime_count_bound(n - 1);
    }
}

/// The count of primes up to `n` is the length of the list of primes up to `n`.
pub proof fn law_count_is_list_length(n: int)
    ensures
        prime_count(n) == primes_through(n).len(),
    decreases n,
{
    if n >= 2 {
        law_count_is_list_length(n - 1);
    }
}

/// The list of primes up to `n` holds exactly the primes `p` with `p <= n`.
pub proof fn law_primes_through_members(n: int, p: int)
    ensures
        primes_through(n).contains(p) <==> (p <= n && prime(p)),
    decreases n,
{
    if n >= 2 {
        law_primes_through_members(n - 1, p);
        if prime(n) {
            let s = primes_through(n - 1);
            assert(s.push(n).contains(p) <==> (s.contains(p) || p == n)) by {
                if s.push(n).contains(p) {
                    let k = choose|k: int| 0 <= k < s.push(n).len() && s.push(n)[k] == p;
                    if k < s.len() {
                        assert(s[k] == p);
                    }
                }
                if p == n {
                    assert(s.push(n)[s.len() as int] == p);
                }
                if s.contains(p) {
                    let k = choose|k: int| 0 <= k < s.len() && s[k] == p;
                    assert(s.push(n)[k] == p);
                }
            }
        }
    }
}

/// Every entry of the list of primes up to `n` is a prime no larger than `n`.
pub proof fn law_primes_through_all_prime(n: int)
    ensures
        forall|i: int|
            0 <= i < primes_through(n).len() ==> prime(#[trigger] primes_through(n)[i])
                && primes_through(n)[i] <= n,
{
    assert forall|i: int| 0 <= i < primes_through(n).len() implies prime(
        #[trigger] primes_through(n)[i],
    ) && primes_through(n)[i] <= n by {
        assert(primes_through(n).contains(primes_through(n)[i]));
        law_primes_through_members(n, primes_through(n)[i]);
    }
}

/// The list of primes up to `n` is strictly increasing.
pub proof fn law_primes_through_increasing(n: int)
    ensures
        forall|i: int, j: int|
            0 <= i < j < primes_through(n).len() ==> primes_through(n)[i] < primes_through(n)[j],
    decreases n,
{
    if n >= 2 {
        law_primes_through_increasing(n - 1);
        let s = primes_through(n - 1);
        assert forall|k: int| 0 <= k < s.len() implies s[k] <= n - 1 by {
            assert(s.contains(s[k]));
            law_primes_through_members(n - 1, s[k]);
        }
    }
}

/// How many primes there are up to `max_n`.
pub fn count_primes(max_n: u64) -> (r: usize)
    requires
        prime_count(max_n as int) <= usize::MAX,
    ensures
        r == prime_count(max_n as int),
{
    let mut count: usize = 0;
    let mut x: u64 = 1;
    while x < max_n
        invariant
            1 <= x,
            x <= max_n || x == 1,
            count == prime_count(x as int),
            prime_count(max_n as int) <= usize::MAX,
        decreases max_n - x,
    {
        x = x + 1;
        if is_prime(x) {
            proof {
                law_prime_count_monotonic(x as int, max_n as int);
            }
            count = count + 1;
        }
    }
    count
}

/// How many primes there are up to `max_n`, or `None` when that count does
/// not fit in a `usize`.
pub fn try_count_primes(max_n: u64) -> (r: Option<usize>)
    ensures
        r is Some <==> prime_count(max_n as int) <= usize::MAX,
        r matches Some(c) ==> c == prime_count(max_n as int),
{
    let mut count: usize = 0;
    let mut x: u64 = 1;
    while x < max_n
        invariant
            1 <= x,
            x <= max_n || x == 1,
            count == prime_count(x as int),
        decreases max_n - x,
    {
        x = x + 1;
        if is_prime(x) {
            match count.checked_add(1) {
                Some(c) => {
                    count = c;
                },
                None => {
                    proof {
                        law_prime_count_monotonic(x as int, max_n as int);
                    }
                    return None;
                },
            }
        }
    }
    Some(count)
}

/// The primes up to `max_n`, in increasing order.
pub fn primes_up_to(max_n: u64) -> (r: Vec<u64>)
    ensures
        r@.map_values(|p: u64| p as int) == primes_through(max_n as int),
{
    let mut primes: Vec<u64> = Vec::new();
    let mut x: u64 = 1;
    assert(primes@.map_values(|p: u64| p as int) =~= primes_through(1));
    while x < max_n
        invariant
            1 <= x,
            x <= max_n || x == 1,
            primes@.map_values(|p: u64| p as int) == primes_through(x as int),
        decreases max_n - x,
    {
        x = x + 1;
        if is_prime(x) {
            let ghost before = primes@;
            primes.push(x);
            assert(primes@.map_values(|p: u64| p as int) =~= before.map_values(
                |p: u64| p as int,
            ).push(x as int));
        }
    }
    primes
}

} // verus!
