use vstd::prelude::*;

verus! {

/// The value of the bill of kind `k`: 1, 2, 5, 10, 20, 30, 50 or 100.
pub open spec fn bill(k: nat) -> nat {
    if k == 0 {
        1
    } else if k == 1 {
        2
    } else if k == 2 {
        5
    } else if k == 3 {
        10
    } else if k == 4 {
        20
    } else if k == 5 {
        30
    } else if k == 6 {
        50
    } else {
        100
    }
}

/// The fewest bills that add up to `n`: none for 0, else one bill more than the
/// fewest for what one bill that fits leaves over.
pub open spec fn min_coins(n: nat) -> nat
    decreases n, 9nat,
{
    if n == 0 {
        0
    } else {
        fewest_after_one(n, 8) + 1
    }
}

/// The fewest bills for what is left of `n` (at least 1) after one bill, the bill taken
/// among the first `k` kinds (at least the 1) that fit.
pub open spec fn fewest_after_one(n: nat, k: nat) -> nat
    decreases n, k,
{
    if n == 0 {
        0
    } else if k <= 1 {
        min_coins((n - 1) as nat)
    } else {
        let m = fewest_after_one(n, (k - 1) as nat);
        let c = bill((k - 1) as nat);
        if c <= n && min_coins((n - c) as nat) < m {
            min_coins((n - c) as nat)
        } else {
            m
        }
    }
}

proof fn lemma_min_coins_bound(n: nat)
    ensures
        min_coins(n) <= n,
    decreases n,
{
    if n > 0 {
        lemma_min_coins_bound((n - 1) as nat);
        lemma_fewest_after_one_bound(n, 8);
    }
}

proof fn lemma_fewest_after_one_bound(n: nat, k: nat)
    requires
        n >= 1,
        min_coins((n - 1) as nat) <= n - 1,
    ensures
        fewest_after_one(n, k) <= n - 1,
    decreases k,
{
    if k > 1 {
        lemma_fewest_after_one_bound(n, (k - 1) as nat);
    }
}

/// The fewest bills that make up `amount`, found bottom-up from 0.
pub fn dp_rec_mc(amount: u32) -> (r: u32)
    ensures
        r == min_coins(amount as nat),
{
    let coins: [usize; 8] = [1, 2, 5, 10, 20, 30, 50, 100];
    let mut dp: Vec<u32> = Vec::new();
    dp.push(0);
    let n = amount as usize;
    let mut i: usize = 0;
    while i < n
        invariant
            n == amount,
            i <= n,
            dp@.len() == i + 1,
            forall|j: int| 0 <= j <= i ==> #[trigger] dp@[j] == min_coins(j as nat),
            coins@ == seq![1usize, 2, 5, 10, 20, 30, 50, 100],
        decreases n - i,
    {
        let t = i + 1;
        proof {
            lemma_min_coins_bound(i as nat);
        }
        let mut best: u32 = dp[i];
        let mut k: usize = 1;
        while k < 8
            invariant
                n == amount,
                t == i + 1,
                i < n,
                dp@.len() == t,
                forall|j: int| 0 <= j < t ==> #[trigger] dp@[j] == min_coins(j as nat),
                coins@ == seq![1usize, 2, 5, 10, 20, 30, 50, 100],
                1 <= k <= 8,
                best <= i,
                best == fewest_after_one(t as nat, k as nat),
            decreases 8 - k,
        {
            let c = coins[k];
            assert(c == bill(k as nat));
            if c <= t && dp[t - c] < best {
                best = dp[t - c];
            }
            k = k + 1;
        }
        assert(min_coins(t as nat) == fewest_after_one(t as nat, 8) + 1);
        dp.push(best + 1);
        i = t;
    }
    dp[n]
}

} // verus!
