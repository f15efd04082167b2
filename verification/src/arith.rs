//! Integer arithmetic and Fibonacci numbers.

use vstd::prelude::*;

verus! {

/// The Fibonacci numbers: `fib(0) == 0`, `fib(1) == 1`,
/// `fib(n) == fib(n - 2) + fib(n - 1)`.
pub open spec fn fib(n: nat) -> nat
    decreases n,
{
    if n == 0 {
        0
    } else if n == 1 {
        1
    } else {
        fib((n - 2) as nat) + fib((n - 1) as nat)
    }
}

/// The largest index whose Fibonacci number fits in a `u64`.
pub const FIB_MAX_INDEX: u32 = 93;

/// Sum of two `i32`; the sum must fit in an `i32`.
pub fn add(a: i32, b: i32) -> (r: i32)
    requires
        i32::MIN <= a + b <= i32::MAX,
    ensures
        r == a + b,
{
    a + b
}

/// The `n`-th Fibonacci number, computed iteratively.
/// `fib(93)` is the largest that fits in a `u64`, so `n` is at most 93.
pub fn fibonacci(n: u32) -> (r: u64)
    requires
        n <= FIB_MAX_INDEX,
    ensures
        r == fib(n as nat),
{
    match n {
        0 => 0,
        1 => 1,
        _ => {
            let mut a: u64 = 0;
            let mut b: u64 = 1;
            let mut i: u32 = 2;
            while i <= n
                invariant
                    2 <= i <= n + 1,
                    n <= FIB_MAX_INDEX,
                    a == fib((i - 2) as nat),
                    b == fib((i - 1) as nat),
                decreases n + 1 - i,
            {
                proof {
                    lemma_fib_u64_boundary();
                    lemma_fib_monotonic(i as nat, FIB_MAX_INDEX as nat);
                }
                let tmp = a + b;
                a = b;
                b = tmp;
                i = i + 1;
            }
            b
        },
    }
}

/// `x + 1`; `x` must be below `u32::MAX`.
pub fn add_one(x: u32) -> (r: u32)
    requires
        x < u32::MAX,
    ensures
        r == x + 1,
{
    x + 1
}

/// `2 * x`; the product must fit in a `u32`.
pub fn double(x: u32) -> (r: u32)
    requires
        2 * x <= u32::MAX,
    ensures
        r == 2 * x,
{
    x * 2
}

/// `double(add_one(x))`, that is `2 * (x + 1)`.
pub fn compute(x: u32) -> (r: u32)
    requires
        2 * (x + 1) <= u32::MAX,
    ensures
        r == 2 * (x + 1),
{
    let a = add_one(x);
    double(a)
}

/// `compute(x) + compute(compute(x))`, that is `6 * x + 8`.
pub fn nested(x: u32) -> (r: u32)
    requires
        6 * x + 8 <= u32::MAX,
    ensures
        r == 6 * x + 8,
{
    let a = compute(x);
    let b = compute(a);
    a + b
}

/// Each Fibonacci number is the sum of the two before it.
pub proof fn law_fibonacci_recurrence(n: nat)
    ensures
        fib(n + 2) == fib(n) + fib(n + 1),
{
}

/// Fibonacci numbers grow: `fib(i) <= fib(j)` whenever `i <= j`.
pub proof fn lemma_fib_monotonic(i: nat, j: nat)
    requires
        i <= j,
    ensures
        fib(i) <= fib(j),
    decreases j - i,
{
    if j < 2 {
    } else if i == j {
    } else if i == j - 1 {
    } else {
        lemma_fib_monotonic(i, (j - 1) as nat);
        lemma_fib_monotonic(i, (j - 2) as nat);
    }
}

/// Consecutive Fibonacci numbers, computed by walking up from `(0, 1)`.
spec fn fib_walk(n: nat) -> (nat, nat)
    decreases n,
{
    if n == 0 {
        (0, 1)
    } else {
        let prev = fib_walk((n - 1) as nat);
        (prev.1, prev.0 + prev.1)
    }
}

proof fn lemma_fib_walk(n: nat)
    ensures
        fib_walk(n) == (fib(n), fib(n + 1)),
    decreases n,
{
    if n > 0 {
        lemma_fib_walk((n - 1) as nat);
    }
}

/// `fib(93)` is the last Fibonacci number that fits in a `u64`.
pub proof fn lemma_fib_u64_boundary()
    ensures
        fib(FIB_MAX_INDEX as nat) <= u64::MAX,
        fib(FIB_MAX_INDEX as nat + 1) > u64::MAX,
{
    lemma_fib_walk(93);
    assert(fib_walk(8) == (21nat, 34nat)) by {
        reveal_with_fuel(fib_walk, 9);
    }
    assert(fib_walk(16) == (987nat, 1597nat)) by {
        reveal_with_fuel(fib_walk, 9);
    }
    assert(fib_walk(24) == (46368nat, 75025nat)) by {
        reveal_with_fuel(fib_walk, 9);
    }
    assert(fib_walk(32) == (2178309nat, 3524578nat)) by {
        reveal_with_fuel(fib_walk, 9);
    }
    assert(fib_walk(40) == (102334155nat, 165580141nat)) by {
        reveal_with_fuel(fib_walk, 9);
    }
    assert(fib_walk(48) == (4807526976nat, 7778742049nat)) by {
        reveal_with_fuel(fib_walk, 9);
    }
    assert(fib_walk(56) == (225851433717nat, 365435296162nat)) by {
        reveal_with_fuel(fib_walk, 9);
    }
    assert(fib_walk(64) == (10610209857723nat, 17167680177565nat)) by {
        reveal_with_fuel(fib_walk, 9);
    }
    assert(fib_walk(72) == (498454011879264nat, 806515533049393nat)) by {
        reveal_with_fuel(fib_walk, 9);
    }
    assert(fib_walk(80) == (23416728348467685nat, 37889062373143906nat)) by {
        reveal_with_fuel(fib_walk, 9);
    }
    assert(fib_walk(88) == (1100087778366101931nat, 1779979416004714189nat)) by {
        reveal_with_fuel(fib_walk, 9);
    }
    assert(fib_walk(93) == (12200160415121876738nat, 19740274219868223167nat)) by {
        reveal_with_fuel(fib_walk, 9);
    }
}

} // verus!
