//! Empirical complexity estimation for benchmark functions.
//!
//! A benchmark declares named parameters (integer ranges, decimal ranges, or
//! discrete item lists), and a driver measures the instruction cost of the
//! benchmark body under a deterministic cache simulator for a systematically
//! chosen set of parameter assignments.  This crate holds the verified core:
//! the sample and parameter model, the token codec spoken between driver and
//! instrumented child, the counter arithmetic of the simulator's output file,
//! the adaptive step-size estimator, and the sampling control loop.

pub mod builder;
pub mod counters;
pub mod decimal;
pub mod error;
pub mod model;
pub mod params;
pub mod protocol;
pub mod sample;
pub mod sampler;
pub mod samples;
pub mod text;

use vstd::prelude::*;

verus! {

/// The Fibonacci numbers, starting `1, 1, 2, 3, ...`: the work profile of
/// the demonstration benchmark.
pub open spec fn spec_fib(n: nat) -> nat
    decreases n,
{
    if n == 0 {
        1
    } else if n == 1 {
        1
    } else {
        spec_fib((n - 1) as nat) + spec_fib((n - 2) as nat)
    }
}

/// Fibonacci numbers never shrink as the index grows.
proof fn lemma_fib_mono(a: nat, b: nat)
    requires
        a <= b,
    ensures
        spec_fib(a) <= spec_fib(b),
    decreases b,
{
    if a < b {
        if b >= 2 {
            lemma_fib_mono(a, (b - 1) as nat);
            lemma_fib_nonneg((b - 2) as nat);
        } else {
            // b == 1 and a == 0: both sides are 1.
        }
    }
}

proof fn lemma_fib_nonneg(n: nat)
    ensures
        spec_fib(n) >= 1,
    decreases n,
{
    if n >= 2 {
        lemma_fib_nonneg((n - 1) as nat);
        lemma_fib_nonneg((n - 2) as nat);
    }
}

/// The demonstration benchmark kernel: the `n`-th Fibonacci number, or
/// `None` exactly when it does not fit a machine word.
pub fn fibonacci(n: usize) -> (r: Option<u64>)
    ensures
        r matches Some(v) ==> v == spec_fib(n as nat),
        r is None ==> spec_fib(n as nat) > u64::MAX,
{
    let mut a: u64 = 1;
    let mut b: u64 = 1;
    let mut i: usize = 0;
    while i < n
        invariant
            0 <= i <= n,
            a == spec_fib(i as nat),
            i < n ==> b == spec_fib(i as nat + 1),
        decreases n - i,
    {
        if i + 1 < n {
            let next = match a.checked_add(b) {
                Some(x) => x,
                None => {
                    proof {
                        lemma_fib_mono(i as nat + 2, n as nat);
                    }
                    return None;
                },
            };
            a = b;
            b = next;
        } else {
            a = b;
        }
        i += 1;
    }
    Some(a)
}

} // verus!
