//! Elementary arithmetic functions: addition and Fibonacci numbers.

use vstd::prelude::*;

verus! {

/// The sum of two numbers.
pub fn add(left: u64, right: u64) -> (r: u64)
    requires
        left + right <= u64::MAX,
    ensures
        r == left + right,
{
    left + right
}

/// The Fibonacci numbers: 0, 1, 1, 2, 3, 5, ...
pub open spec fn fib_spec(n: nat) -> nat
    decreases n,
{
    if n == 0 {
        0
    } else if n == 1 {
        1
    } else {
        fib_spec((n - 1) as nat) + fib_spec((n - 2) as nat)
    }
}

/// Fibonacci numbers never shrink as the index grows.
proof fn lemma_fib_mono(a: nat, b: nat)
    requires
        a <= b,
    ensures
        fib_spec(a) <= fib_spec(b),
    decreases b,
{
    if a < b && b >= 2 {
        lemma_fib_mono(a, (b - 1) as nat);
    } else if a < b {
        assert(fib_spec(0) <= fib_spec(1));
    }
}

/// The `n`-th Fibonacci number, by iterated addition. The requirement that
/// the result fit is a machine limit: past index 186 it outgrows the result
/// type.
pub fn fib(n: u64) -> (r: u128)
    requires
        fib_spec(n as nat) <= u128::MAX,
    ensures
        r == fib_spec(n as nat),
{
    let mut a: u128 = 0;
    let mut b: u128 = 1;
    let mut i: u64 = 0;
    while i < n
        invariant
            i <= n,
            fib_spec(n as nat) <= u128::MAX,
            a == fib_spec(i as nat),
            b == if i == 0 {
                1nat
            } else {
                fib_spec((i - 1) as nat)
            },
        decreases n - i,
    {
        proof {
            lemma_fib_mono((i + 1) as nat, n as nat);
        }
        let next = a + b;
        b = a;
        a = next;
        i = i + 1;
    }
    a
}

} // verus!
