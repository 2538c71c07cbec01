use vstd::prelude::*;

verus! {

/// The Fibonacci numbers, starting 1, 1, 2, 3, 5, ...
pub open spec fn fib(n: nat) -> nat
    decreases n,
{
    if n < 2 {
        1
    } else {
        fib((n - 2) as nat) + fib((n - 1) as nat)
    }
}

/// The sum of the odd values among `fib(0)`, ..., `fib(n - 1)` that do not exceed `t`.
pub open spec fn odd_fib_sum(t: nat, n: nat) -> nat
    decreases n,
{
    if n == 0 {
        0
    } else {
        let f = fib((n - 1) as nat);
        odd_fib_sum(t, (n - 1) as nat) + (if f <= t && f % 2 == 1 { f } else { 0 })
    }
}

proof fn lemma_fib_monotone(i: nat, j: nat)
    requires
        i <= j,
    ensures
        fib(i) <= fib(j),
    decreases j,
{
    if i < j {
        lemma_fib_monotone(i, (j - 1) as nat);
        if j >= 2 {
            assert(fib(j) == fib((j - 2) as nat) + fib((j - 1) as nat));
        }
    }
}

proof fn lemma_odd_fib_sum_stable(t: nat, k: nat, n: nat)
    requires
        fib(k) > t,
        k <= n,
    ensures
        odd_fib_sum(t, n) == odd_fib_sum(t, k),
    decreases n,
{
    if k < n {
        lemma_odd_fib_sum_stable(t, k, (n - 1) as nat);
        lemma_fib_monotone(k, (n - 1) as nat);
    }
}

/// The sum of the odd Fibonacci numbers that do not exceed `threshold`, the leading 1
/// counted twice as the sequence holds it twice. The sum must fit in a `u32`.
pub fn odd_fibnacci_sum(threshold: u32) -> (r: u32)
    requires
        forall|n: nat| fib(n) > threshold ==> #[trigger] odd_fib_sum(threshold as nat, n) <= u32::MAX,
    ensures
        forall|n: nat| fib(n) > threshold ==> r == odd_fib_sum(threshold as nat, n),
{
    if threshold < 1 {
        assert forall|n: nat| fib(n) > threshold implies 0 == odd_fib_sum(threshold as nat, n) by {
            assert(fib(0) > threshold);
            lemma_odd_fib_sum_stable(threshold as nat, 0, n);
        }
        return 0;
    }
    let t = threshold as u64;
    let mut sum: u64 = 0;
    let mut a: u64 = 1;
    let mut b: u64 = 1;
    let ghost mut j: nat = 0;
    while a <= t
        invariant
            t == threshold,
            a == fib(j),
            b == fib(j + 1),
            1 <= a <= b <= 2 * a,
            j <= a,
            j + 1 <= b,
            b <= 3 * t + 3,
            sum <= b - 1,
            sum == odd_fib_sum(threshold as nat, j),
            forall|i: nat| i < j ==> #[trigger] fib(i) <= threshold,
        decreases threshold + 1 - j,
    {
        assert(fib(j + 2) == fib(j) + fib(j + 1));
        assert(odd_fib_sum(threshold as nat, j + 1) == odd_fib_sum(threshold as nat, j) + (if a
            <= threshold && a % 2 == 1 {
            a as nat
        } else {
            0
        }));
        if a % 2 == 1 {
            sum = sum + a;
        }
        let next = a + b;
        a = b;
        b = next;
        proof {
            j = j + 1;
        }
    }
    assert forall|n: nat| fib(n) > threshold implies sum == odd_fib_sum(threshold as nat, n) by {
        if n < j {
            assert(fib(n) <= threshold);
        }
        lemma_odd_fib_sum_stable(threshold as nat, j, n);
    }
    assert(odd_fib_sum(threshold as nat, j) <= u32::MAX);
    sum as u32
}

} // verus!
