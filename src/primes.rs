use vstd::prelude::*;
use vstd::string::*;
use crate::base::{digits_in_base, from_decimal};

verus! {

/// `n` is at least 2 and has no divisor between 2 and `n - 1`.
pub open spec fn is_prime(n: nat) -> bool {
    n >= 2 && forall|d: nat| 2 <= d < n ==> #[trigger] (n % d) != 0
}

/// `n` is the sum of a prime and twice a positive square.
pub open spec fn prime_plus_twice_square(n: nat) -> bool {
    exists|k: nat| k >= 1 && 2 * k * k <= n && #[trigger] is_prime((n - 2 * k * k) as nat)
}

/// An odd composite number from 9 on that is no prime plus twice a positive square.
pub open spec fn is_exception(n: nat) -> bool {
    n >= 9 && n % 2 == 1 && !is_prime(n) && !prime_plus_twice_square(n)
}

/// The exceptions below `m`, in increasing order.
pub open spec fn exceptions_below(m: nat) -> Seq<nat>
    decreases m,
{
    if m == 0 {
        Seq::empty()
    } else if is_exception((m - 1) as nat) {
        exceptions_below((m - 1) as nat).push((m - 1) as nat)
    } else {
        exceptions_below((m - 1) as nat)
    }
}

/// How far the search for exceptions goes.
pub const SEARCH_LIMIT: u64 = 10000;

proof fn lemma_divisor_of_multiple(n: nat, d: nat, k: nat)
    requires
        d >= 1,
        k >= 1,
        n % d == 0,
        d % k == 0,
    ensures
        n % k == 0,
{
    let a = n / d;
    let b = d / k;
    assert(n == d * a) by (nonlinear_arith)
        requires
            n % d == 0,
            d >= 1,
            a == n / d,
    ;
    assert(d == k * b) by (nonlinear_arith)
        requires
            d % k == 0,
            k >= 1,
            b == d / k,
    ;
    assert(n == k * (b * a)) by (nonlinear_arith)
        requires
            n == d * a,
            d == k * b,
    ;
    assert((k * (b * a)) % k == 0) by (nonlinear_arith)
        requires
            k >= 1,
    ;
}

proof fn lemma_small_cofactor(n: nat, d: nat, i: nat)
    requires
        2 <= i <= d < n,
        n % d == 0,
        n < i * i,
    ensures
        2 <= n / d < i,
        n % (n / d) == 0,
{
    let q = n / d;
    assert(n == d * q) by (nonlinear_arith)
        requires
            n % d == 0,
            d >= 1,
            q == n / d,
    ;
    assert(q >= 2) by (nonlinear_arith)
        requires
            n == d * q,
            d < n,
    ;
    assert(q < i) by (nonlinear_arith)
        requires
            n == d * q,
            d >= i,
            n < i * i,
            i >= 2,
    ;
    assert(n % q == 0) by (nonlinear_arith)
        requires
            n == d * q,
            q >= 1,
    ;
    assert(n / q == d) by (nonlinear_arith)
        requires
            n == d * q,
            q >= 1,
    ;
}

/// Whether `n` is prime, by trial division with 2, 3 and the numbers `6j - 1`, `6j + 1`
/// up to the square root.
#[verifier::rlimit(30)]
pub fn is_prime_u64(n: u64) -> (r: bool)
    ensures
        r == is_prime(n as nat),
{
    if n <= 1 {
        return false;
    }
    if n <= 3 {
        return true;
    }
    if n % 2 == 0 || n % 3 == 0 {
        return false;
    }
    proof {
        assert forall|d: nat| 2 <= d < 5 implies #[trigger] ((n as nat) % d) != 0 by {
            if d == 4 && (n as nat) % d == 0 {
                lemma_divisor_of_multiple(n as nat, 4, 2);
            }
        }
    }
    let mut i: u64 = 5;
    let mut w: u64 = 2;
    while i <= n / i
        invariant
            n >= 4,
            5 <= i,
            w == 2 || w == 4,
            w == 2 ==> i % 6 == 5,
            w == 4 ==> i % 6 == 1,
            n % 2 != 0,
            n % 3 != 0,
            forall|d: nat| 2 <= d < i ==> #[trigger] ((n as nat) % d) != 0,
        decreases n - i,
    {
        proof {
            assert(i * i <= n) by (nonlinear_arith)
                requires
                    i <= n / i,
                    i >= 1,
            ;
            assert(i + 4 < n) by (nonlinear_arith)
                requires
                    i * i <= n,
                    i >= 5,
            ;
        }
        if n % i == 0 {
            assert((n as nat) % (i as nat) == 0);
            return false;
        }
        proof {
            assert forall|d: nat| 2 <= d < i + w implies #[trigger] ((n as nat) % d) != 0 by {
                if i < d {
                    if d % 2 == 0 {
                        if (n as nat) % d == 0 {
                            lemma_divisor_of_multiple(n as nat, d, 2);
                        }
                    } else {
                        assert(d % 3 == 0);
                        if (n as nat) % d == 0 {
                            lemma_divisor_of_multiple(n as nat, d, 3);
                        }
                    }
                }
            }
        }
        i = i + w;
        w = 6 - w;
    }
    proof {
        assert(n < i * i) by (nonlinear_arith)
            requires
                i > n / i,
                i >= 1,
        ;
        assert forall|d: nat| 2 <= d < n implies #[trigger] ((n as nat) % d) != 0 by {
            if d >= i && (n as nat) % d == 0 {
                lemma_small_cofactor(n as nat, d, i as nat);
                let q = (n as nat) / d;
                assert((n as nat) % q != 0);
            }
        }
    }
    true
}

/// Whether `n` is a prime plus twice a positive square.
pub fn is_prime_plus_twice_square(n: u64) -> (r: bool)
    ensures
        r == prime_plus_twice_square(n as nat),
{
    let mut k: u64 = 1;
    while k <= n / 2 / k
        invariant
            1 <= k,
            forall|j: nat| 1 <= j < k && 2 * j * j <= n ==> !#[trigger] is_prime((n - 2 * j * j) as nat),
        decreases n - k,
    {
        proof {
            assert(2 * k * k <= n) by (nonlinear_arith)
                requires
                    k <= n / 2 / k,
                    k >= 1,
            ;
            assert(k < n) by (nonlinear_arith)
                requires
                    2 * k * k <= n,
                    k >= 1,
            ;
        }
        let p = n - 2 * k * k;
        if is_prime_u64(p) {
            proof {
                let j: nat = k as nat;
                assert(is_prime((n - 2 * j * j) as nat));
                assert(1 <= j && 2 * j * j <= n);
            }
            return true;
        }
        k = k + 1;
    }
    proof {
        assert(2 * k * k > n) by (nonlinear_arith)
            requires
                k > n / 2 / k,
                k >= 1,
        ;
        assert forall|j: nat| 1 <= j && 2 * j * j <= n implies !#[trigger] is_prime((n - 2 * j * j) as nat) by {
            if j >= k {
                assert(2 * j * j >= 2 * k * k) by (nonlinear_arith)
                    requires
                        j >= k,
                        k >= 1,
                ;
            }
        }
    }
    false
}

proof fn lemma_exceptions_prefix(m: nat, m2: nat)
    requires
        m <= m2,
    ensures
        exceptions_below(m).len() <= exceptions_below(m2).len(),
        exceptions_below(m2).subrange(0, exceptions_below(m).len() as int) == exceptions_below(m),
    decreases m2,
{
    if m < m2 {
        lemma_exceptions_prefix(m, (m2 - 1) as nat);
        let a = exceptions_below(m);
        let b = exceptions_below((m2 - 1) as nat);
        assert(exceptions_below(m2).subrange(0, a.len() as int) =~= b.subrange(0, a.len() as int));
    } else {
        assert(exceptions_below(m2).subrange(0, exceptions_below(m).len() as int) =~= exceptions_below(m));
    }
}

/// The first two odd composite numbers that are no prime plus twice a positive square,
/// in increasing order and joined by a comma; the search stops at `SEARCH_LIMIT`, and
/// gives the empty string where it finds fewer than two below it.
pub fn goldbach_conjecture() -> (r: String)
    ensures
        exceptions_below(SEARCH_LIMIT as nat).len() >= 2 ==> r@ == digits_in_base(
            exceptions_below(SEARCH_LIMIT as nat)[0],
            10,
        ) + seq![','] + digits_in_base(exceptions_below(SEARCH_LIMIT as nat)[1], 10),
        exceptions_below(SEARCH_LIMIT as nat).len() < 2 ==> r@ == Seq::<char>::empty(),
{
    let mut results: Vec<u64> = Vec::new();
    let mut n: u64 = 9;
    proof {
        assert forall|m: nat| m <= 9 implies #[trigger] exceptions_below(m) == Seq::<nat>::empty() by {
            lemma_no_exceptions_below_nine(m);
        }
    }
    while results.len() < 2 && n < SEARCH_LIMIT
        invariant
            9 <= n <= SEARCH_LIMIT + 1,
            n % 2 == 1,
            results@.len() <= 2,
            results@.map_values(|x: u64| x as nat) == exceptions_below(n as nat),
        decreases SEARCH_LIMIT + 1 - n,
    {
        let ghost before = results@.map_values(|x: u64| x as nat);
        let exc = !is_prime_u64(n) && !is_prime_plus_twice_square(n);
        if exc {
            results.push(n);
        }
        proof {
            assert(exceptions_below((n + 1) as nat) == (if is_exception(n as nat) {
                exceptions_below(n as nat).push(n as nat)
            } else {
                exceptions_below(n as nat)
            }));
            assert(!is_exception((n + 1) as nat));
            assert(exceptions_below((n + 2) as nat) == exceptions_below((n + 1) as nat));
            assert(results@.map_values(|x: u64| x as nat) =~= exceptions_below((n + 2) as nat));
        }
        n = n + 2;
    }
    let ghost e = exceptions_below(SEARCH_LIMIT as nat);
    proof {
        if n > SEARCH_LIMIT {
            assert(!is_exception(SEARCH_LIMIT as nat));
            assert(exceptions_below((SEARCH_LIMIT + 1) as nat) == e);
        } else {
            lemma_exceptions_prefix(n as nat, SEARCH_LIMIT as nat);
        }
    }
    if results.len() < 2 {
        return String::new();
    }
    assert(results@[0] as nat == e[0] && results@[1] as nat == e[1]) by {
        assert(results@.map_values(|x: u64| x as nat)[0] == results@[0] as nat);
        assert(results@.map_values(|x: u64| x as nat)[1] == results@[1] as nat);
        if n <= SEARCH_LIMIT {
            assert(e.subrange(0, 2)[0] == e[0]);
            assert(e.subrange(0, 2)[1] == e[1]);
        }
    }
    let first = from_decimal(results[0], 10);
    let second = from_decimal(results[1], 10);
    proof {
        reveal_strlit(",");
    }
    let joined = first.concat(",");
    joined.concat(second.as_str())
}

proof fn lemma_no_exceptions_below_nine(m: nat)
    requires
        m <= 9,
    ensures
        exceptions_below(m) == Seq::<nat>::empty(),
    decreases m,
{
    if m > 0 {
        lemma_no_exceptions_below_nine((m - 1) as nat);
    }
}

proof fn lemma_euclid_small(p: nat, a: nat, b: nat)
    requires
        is_prime(p),
        0 < a < p,
        (a * b) % p == 0,
    ensures
        b % p == 0,
    decreases a,
{
    if a == 1 {
        assert(a * b == b) by (nonlinear_arith)
            requires
                a == 1,
        ;
    } else {
        let q = p / a;
        let r = p % a;
        assert(p == q * a + r && r < a) by (nonlinear_arith)
            requires
                a > 0,
                q == p / a,
                r == p % a,
        ;
        assert(p % a != 0);
        let t = (a * b) / p;
        assert(a * b == p * t) by (nonlinear_arith)
            requires
                (a * b) % p == 0,
                p > 0,
                t == (a * b) / p,
        ;
        assert(r * b == p * (b - q * t)) by (nonlinear_arith)
            requires
                p == q * a + r,
                a * b == p * t,
        ;
        assert(b - q * t >= 0) by (nonlinear_arith)
            requires
                r * b == p * (b - q * t),
                p > 0,
                r >= 0,
                b >= 0,
        ;
        let s: nat = (b - q * t) as nat;
        assert((p * s) % p == 0) by (nonlinear_arith)
            requires
                p > 0,
        ;
        lemma_euclid_small(p, r, b);
    }
}

/// A prime that divides a product divides one of its factors.
proof fn lemma_euclid(p: nat, a: nat, b: nat)
    requires
        is_prime(p),
        (a * b) % p == 0,
    ensures
        a % p == 0 || b % p == 0,
{
    let a2 = a % p;
    let s = a / p;
    assert(a == p * s + a2 && a2 < p) by (nonlinear_arith)
        requires
            p > 0,
            s == a / p,
            a2 == a % p,
    ;
    if a2 != 0 {
        let t = (a * b) / p;
        assert(a * b == p * t) by (nonlinear_arith)
            requires
                (a * b) % p == 0,
                p > 0,
                t == (a * b) / p,
        ;
        assert(a2 * b == p * (t - s * b)) by (nonlinear_arith)
            requires
                a == p * s + a2,
                a * b == p * t,
        ;
        assert(t - s * b >= 0) by (nonlinear_arith)
            requires
                a2 * b == p * (t - s * b),
                p > 0,
        ;
        let u: nat = (t - s * b) as nat;
        assert((p * u) % p == 0) by (nonlinear_arith)
            requires
                p > 0,
        ;
        lemma_euclid_small(p, a2, b);
    }
}

proof fn lemma_divisor_le(d: nat, n: nat)
    requires
        d >= 1,
        n >= 1,
        n % d == 0,
    ensures
        d <= n,
{
    assert(d <= n) by (nonlinear_arith)
        requires
            n % d == 0,
            d >= 1,
            n >= 1,
    {
        assert(n == d * (n / d));
    }
}

/// Each step of the search: `orig == number * m`, every prime factor of `m` is at
/// most `max_prime`, which is 0 or a prime factor of `m` not above `i`, and no number from 2
/// below `i` divides `number`.
pub open spec fn factor_state(orig: nat, number: nat, m: nat, max_prime: nat, i: nat) -> bool {
    &&& number >= 1
    &&& m >= 1
    &&& orig == number * m
    &&& forall|p: nat| is_prime(p) && #[trigger] (m % p) == 0 ==> p <= max_prime
    &&& (max_prime == 0 <==> m == 1)
    &&& (max_prime > 0 ==> is_prime(max_prime) && m % max_prime == 0 && max_prime <= i)
    &&& forall|d: nat| 2 <= d < i ==> #[trigger] (number % d) != 0
}

proof fn lemma_divide_out(orig: nat, number: nat, m: nat, max_prime: nat, i: nat)
    requires
        factor_state(orig, number, m, max_prime, i),
        i >= 2,
        number % i == 0,
    ensures
        is_prime(i),
        factor_state(orig, number / i, m * i, i, i),
        number / i < number,
{
    let n2 = number / i;
    assert(number == n2 * i) by (nonlinear_arith)
        requires
            number % i == 0,
            i >= 2,
            n2 == number / i,
    ;
    assert(n2 >= 1 && n2 < number) by (nonlinear_arith)
        requires
            number == n2 * i,
            number >= 1,
            i >= 2,
    ;
    assert forall|d: nat| 2 <= d < i implies #[trigger] (i % d) != 0 by {
        if i % d == 0 {
            lemma_divisor_of_multiple(number, i, d);
        }
    }
    assert(orig == n2 * (m * i)) by (nonlinear_arith)
        requires
            orig == number * m,
            number == n2 * i,
    ;
    assert forall|p: nat| is_prime(p) && #[trigger] ((m * i) % p) == 0 implies p <= i by {
        lemma_euclid(p, m, i);
        if i % p == 0 {
            lemma_divisor_le(p, i);
        } else {
            assert(p <= max_prime);
        }
    }
    assert((m * i) % i == 0) by (nonlinear_arith)
        requires
            i >= 2,
    ;
    assert(m * i != 1) by (nonlinear_arith)
        requires
            m >= 1,
            i >= 2,
    ;
    assert(number % n2 == 0) by (nonlinear_arith)
        requires
            number == n2 * i,
            n2 >= 1,
    ;
    assert forall|d: nat| 2 <= d < i implies #[trigger] (n2 % d) != 0 by {
        if n2 % d == 0 {
            lemma_divisor_of_multiple(number, n2, d);
        }
    }
    assert(is_prime(i));
    assert(m * i >= 1) by (nonlinear_arith)
        requires
            m >= 1,
            i >= 2,
    ;
    assert(orig == (number / i) * (m * i));
    assert(forall|p: nat| is_prime(p) && #[trigger] ((m * i) % p) == 0 ==> p <= i);
}

proof fn lemma_rest_prime(orig: nat, number: nat, m: nat, max_prime: nat, i: nat)
    requires
        factor_state(orig, number, m, max_prime, i),
        i >= 2,
        number >= 2,
        number < i * i,
    ensures
        is_prime(number),
{
    assert forall|d: nat| 2 <= d < number implies #[trigger] (number % d) != 0 by {
        if d >= i && number % d == 0 {
            lemma_small_cofactor(number, d, i);
            let q = number / d;
            assert(number % q != 0);
        }
    }
}

proof fn lemma_rest_is_top(orig: nat, number: nat, m: nat, max_prime: nat, i: nat)
    requires
        factor_state(orig, number, m, max_prime, i),
        number >= 2,
    ensures
        orig % number == 0,
        orig / number == m,
        max_prime <= number,
        forall|p: nat| is_prime(p) && #[trigger] (orig % p) == 0 ==> p <= number,
{
    assert(orig % number == 0 && orig / number == m) by (nonlinear_arith)
        requires
            orig == number * m,
            number >= 2,
    ;
    assert(number % number == 0);
    assert(i <= number);
    assert forall|p: nat| is_prime(p) && #[trigger] (orig % p) == 0 implies p <= number by {
        lemma_euclid(p, number, m);
        if number % p == 0 {
            lemma_divisor_le(p, number);
        } else {
            assert(p <= max_prime);
        }
    }
}

/// Trial division stops at this bound: a rest above it is returned as it is.
pub const TRIAL_LIMIT: u128 = 1000000;

/// What `find_max_prime_factor` returns for `n` from 2 on: a divisor `r` of `n` that no
/// prime factor of `n` exceeds. Either `r` is prime, and so the largest prime factor,
/// or no number from 2 to `TRIAL_LIMIT` divides `r` while every prime factor of
/// `n / r` is at most `TRIAL_LIMIT`: `r` is then the product of the large prime
/// factors, which trial division did not split.
pub open spec fn max_factor_spec(n: nat, r: nat) -> bool {
    &&& r >= 2
    &&& n % r == 0
    &&& forall|p: nat| is_prime(p) && #[trigger] (n % p) == 0 ==> p <= r
    &&& is_prime(r) || {
        &&& forall|d: nat| 2 <= d <= TRIAL_LIMIT ==> #[trigger] (r % d) != 0
        &&& forall|p: nat| is_prime(p) && #[trigger] ((n / r) % p) == 0 ==> p <= TRIAL_LIMIT
    }
}

/// The largest prime factor of `number`, found by trial division with 2 and the odd
/// numbers up to `TRIAL_LIMIT`; 0 and 1 are returned as they are.
pub fn find_max_prime_factor(number: u128) -> (r: u128)
    ensures
        number <= 1 ==> r == number,
        number >= 2 ==> max_factor_spec(number as nat, r as nat),
{
    if number <= 1 {
        return number;
    }
    let ghost orig = number as nat;
    let mut n: u128 = number;
    let mut max_prime: u128 = 0;
    let ghost mut m: nat = 1;
    proof {
        assert(orig == (n as nat) * 1);
        assert forall|p: nat| is_prime(p) && #[trigger] (1nat % p) == 0 implies p <= 0 by {
            assert(1nat % p == 1) by (nonlinear_arith)
                requires
                    p >= 2,
            ;
        }
    }
    while n % 2 == 0
        invariant
            factor_state(orig, n as nat, m, max_prime as nat, 2),
        decreases n,
    {
        proof {
            lemma_divide_out(orig, n as nat, m, max_prime as nat, 2);
            m = m * 2;
        }
        max_prime = 2;
        n = n / 2;
    }
    let mut i: u128 = 3;
    while i <= n / i && i <= TRIAL_LIMIT
        invariant
            factor_state(orig, n as nat, m, max_prime as nat, i as nat),
            3 <= i <= TRIAL_LIMIT + 1,
            i % 2 == 1,
            max_prime < i,
        decreases TRIAL_LIMIT + 1 - i,
    {
        while n % i == 0
            invariant
                factor_state(orig, n as nat, m, max_prime as nat, i as nat),
                3 <= i <= TRIAL_LIMIT,
                i % 2 == 1,
            decreases n,
        {
            proof {
                lemma_divide_out(orig, n as nat, m, max_prime as nat, i as nat);
                m = m * (i as nat);
            }
            max_prime = i;
            n = n / i;
        }
        proof {
            lemma_step_odd(n as nat, i as nat);
        }
        i = i + 2;
    }
    proof {
        if i <= TRIAL_LIMIT {
            assert(n < i * i) by (nonlinear_arith)
                requires
                    i > n / i,
                    i >= 1,
            ;
        }
    }
    if n > TRIAL_LIMIT {
        proof {
            lemma_rest_is_top(orig, n as nat, m, max_prime as nat, i as nat);
            if i <= TRIAL_LIMIT {
                lemma_rest_prime(orig, n as nat, m, max_prime as nat, i as nat);
            } else {
                assert forall|p: nat| is_prime(p) && #[trigger] ((orig / (n as nat)) % p) == 0 implies p <= TRIAL_LIMIT by {
                    assert(p <= max_prime);
                }
            }
        }
        return n;
    }
    if n > 1 {
        while i <= n / i
            invariant
                factor_state(orig, n as nat, m, max_prime as nat, i as nat),
                3 <= i <= TRIAL_LIMIT + 2,
                i % 2 == 1,
                n <= TRIAL_LIMIT,
            decreases TRIAL_LIMIT + 2 - i,
        {
            proof {
                assert(i * i <= n) by (nonlinear_arith)
                    requires
                        i <= n / i,
                        i >= 1,
                ;
            }
            while n % i == 0
                invariant
                    factor_state(orig, n as nat, m, max_prime as nat, i as nat),
                    3 <= i,
                    i * i <= TRIAL_LIMIT,
                    i % 2 == 1,
                    n <= TRIAL_LIMIT,
                decreases n,
            {
                proof {
                    lemma_divide_out(orig, n as nat, m, max_prime as nat, i as nat);
                    m = m * (i as nat);
                }
                max_prime = i;
                n = n / i;
            }
            proof {
                lemma_step_odd(n as nat, i as nat);
                assert(i <= 1000) by (nonlinear_arith)
                    requires
                        i * i <= TRIAL_LIMIT,
                        i >= 1,
                ;
            }
            i = i + 2;
        }
        proof {
            assert(n < i * i) by (nonlinear_arith)
                requires
                    i > n / i,
                    i >= 1,
            ;
        }
        if n > 1 {
            proof {
                lemma_rest_is_top(orig, n as nat, m, max_prime as nat, i as nat);
                lemma_rest_prime(orig, n as nat, m, max_prime as nat, i as nat);
            }
            return n;
        }
    }
    proof {
        assert(n == 1);
        assert(orig == m) by (nonlinear_arith)
            requires
                orig == n * m,
                n == 1,
        ;
    }
    max_prime
}

proof fn lemma_step_odd(n: nat, i: nat)
    requires
        i >= 3,
        i % 2 == 1,
        n % i != 0,
        n % 2 != 0,
    ensures
        n % (i + 1) != 0,
{
    if n % (i + 1) == 0 {
        lemma_divisor_of_multiple(n, i + 1, 2);
    }
}

} // verus!
