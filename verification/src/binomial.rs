//! Binomial coefficients: the number of ways to choose `k` numbers out of `n`.
use vstd::prelude::*;

verus! {

/// `C(n, k)`, defined by Pascal's rule.
pub open spec fn binomial(n: nat, k: nat) -> nat
    decreases n,
{
    if k == 0 {
        1
    } else if n == 0 {
        0
    } else {
        binomial((n - 1) as nat, (k - 1) as nat) + binomial((n - 1) as nat, k)
    }
}

/// `n!`
pub open spec fn factorial(n: nat) -> nat
    decreases n,
{
    if n == 0 {
        1
    } else {
        n * factorial((n - 1) as nat)
    }
}

pub proof fn lemma_factorial_positive(n: nat)
    ensures
        factorial(n) >= 1,
    decreases n,
{
    if n > 0 {
        lemma_factorial_positive((n - 1) as nat);
        assert(n * factorial((n - 1) as nat) >= 1) by (nonlinear_arith)
            requires
                n >= 1,
                factorial((n - 1) as nat) >= 1,
        ;
    }
}

/// There is no way to choose more numbers than there are.
pub proof fn lemma_binomial_above(n: nat, k: nat)
    requires
        k > n,
    ensures
        binomial(n, k) == 0,
    decreases n,
{
    if n > 0 {
        lemma_binomial_above((n - 1) as nat, (k - 1) as nat);
        lemma_binomial_above((n - 1) as nat, k);
    }
}

/// There is one way to choose all the numbers.
pub proof fn lemma_binomial_all(n: nat)
    ensures
        binomial(n, n) == 1,
    decreases n,
{
    if n > 0 {
        lemma_binomial_all((n - 1) as nat);
        lemma_binomial_above((n - 1) as nat, n);
    }
}

/// Every size up to `n` can be chosen in at least one way.
pub proof fn lemma_binomial_positive(n: nat, k: nat)
    requires
        k <= n,
    ensures
        binomial(n, k) >= 1,
    decreases n,
{
    if k > 0 && n > 0 {
        lemma_binomial_positive((n - 1) as nat, (k - 1) as nat);
    }
}

/// `C(n, k) * k! * (n - k)! == n!`
pub proof fn lemma_binomial_factorial(n: nat, k: nat)
    requires
        k <= n,
    ensures
        binomial(n, k) * factorial(k) * factorial((n - k) as nat) == factorial(n),
    decreases n,
{
    if k == 0 {
        assert(factorial(0) == 1);
        assert(binomial(n, k) * factorial(k) * factorial((n - k) as nat) == factorial(n)) by (nonlinear_arith)
            requires
                binomial(n, k) == 1,
                factorial(k) == 1,
                (n - k) as nat == n,
        ;
    } else if k == n {
        lemma_binomial_all(n);
        assert(factorial(0) == 1);
        assert(binomial(n, k) * factorial(k) * factorial((n - k) as nat) == factorial(n)) by (nonlinear_arith)
            requires
                binomial(n, k) == 1,
                factorial((n - k) as nat) == 1,
                k == n,
        ;
    } else {
        let m = (n - 1) as nat;
        lemma_binomial_factorial(m, (k - 1) as nat);
        lemma_binomial_factorial(m, k);
        let a = binomial(m, (k - 1) as nat);
        let b = binomial(m, k);
        let fk1 = factorial((k - 1) as nat);
        let fk = factorial(k);
        let fnk = factorial((n - k) as nat);
        let fnk1 = factorial((m - k) as nat);
        assert(fk == k * fk1);
        assert(fnk == (n - k) * fnk1);
        assert(factorial(n) == n * factorial(m));
        assert(binomial(n, k) == a + b);
        assert((a + b) * fk * fnk == factorial(n)) by (nonlinear_arith)
            requires
                a * fk1 * fnk == factorial(m),
                b * fk * fnk1 == factorial(m),
                fk == k * fk1,
                fnk == (n - k) * fnk1,
                factorial(n) == n * factorial(m),
                0 < k < n,
        ;
    }
}

/// `C(n, k) == C(n, n - k)`
pub proof fn lemma_binomial_symmetric(n: nat, k: nat)
    requires
        k <= n,
    ensures
        binomial(n, k) == binomial(n, (n - k) as nat),
{
    let j = (n - k) as nat;
    lemma_binomial_factorial(n, k);
    lemma_binomial_factorial(n, j);
    assert((n - j) as nat == k);
    lemma_factorial_positive(k);
    lemma_factorial_positive(j);
    let f = factorial(k) * factorial(j);
    assert(f > 0) by (nonlinear_arith)
        requires
            f == factorial(k) * factorial(j),
            factorial(k) >= 1,
            factorial(j) >= 1,
    ;
    assert(binomial(n, k) * f == binomial(n, j) * f) by (nonlinear_arith)
        requires
            binomial(n, k) * factorial(k) * factorial(j) == factorial(n),
            binomial(n, j) * factorial(j) * factorial(k) == factorial(n),
            f == factorial(k) * factorial(j),
    ;
    assert(binomial(n, k) == binomial(n, j)) by (nonlinear_arith)
        requires
            binomial(n, k) * f == binomial(n, j) * f,
            f > 0,
    ;
}

/// `C(n, i) * i == C(n, i - 1) * (n - i + 1)`: one more number chosen.
pub proof fn lemma_binomial_step(n: nat, i: nat)
    requires
        1 <= i <= n,
    ensures
        binomial(n, i) * i == binomial(n, (i - 1) as nat) * (n - i + 1),
{
    let j = (i - 1) as nat;
    lemma_binomial_factorial(n, i);
    lemma_binomial_factorial(n, j);
    let fj = factorial(j);
    let fi = factorial(i);
    let fni = factorial((n - i) as nat);
    let fnj = factorial((n - j) as nat);
    assert(fi == i * fj);
    assert(fnj == (n - j) * fni);
    lemma_factorial_positive(j);
    lemma_factorial_positive((n - i) as nat);
    let g = fj * fni;
    assert(g > 0) by (nonlinear_arith)
        requires
            g == fj * fni,
            fj >= 1,
            fni >= 1,
    ;
    assert((binomial(n, i) * i) * g == (binomial(n, j) * (n - i + 1)) * g) by (nonlinear_arith)
        requires
            binomial(n, i) * fi * fni == factorial(n),
            binomial(n, j) * fj * fnj == factorial(n),
            fi == i * fj,
            fnj == (n - j) * fni,
            j + 1 == i,
            g == fj * fni,
    ;
    assert(binomial(n, i) * i == binomial(n, j) * (n - i + 1)) by (nonlinear_arith)
        requires
            (binomial(n, i) * i) * g == (binomial(n, j) * (n - i + 1)) * g,
            g > 0,
    ;
}

/// Up to the middle, choosing more numbers gives more ways.
pub proof fn lemma_binomial_increasing(n: nat, i: nat, j: nat)
    requires
        i <= j,
        2 * j <= n,
    ensures
        binomial(n, i) <= binomial(n, j),
    decreases j - i,
{
    if i < j {
        lemma_binomial_increasing(n, i, (j - 1) as nat);
        lemma_binomial_step(n, j);
        let a = binomial(n, (j - 1) as nat);
        let b = binomial(n, j);
        assert(a <= b) by (nonlinear_arith)
            requires
                b * j == a * (n - j + 1),
                2 * j <= n,
                j >= 1,
        ;
    }
}

/// Adding a number to the pool never reduces the ways to choose.
pub proof fn lemma_binomial_grows_with_pool(n: nat, k: nat)
    ensures
        binomial(n, k) <= binomial(n + 1, k),
{
    if k > 0 {
        assert(binomial(n + 1, k) == binomial(n, (k - 1) as nat) + binomial(n, k));
    }
}

/// Choosing `k` from `a` and `m` from `b` is one way of choosing `k + m` from `a + b`.
pub proof fn lemma_binomial_product(a: nat, k: nat, b: nat, m: nat)
    ensures
        binomial(a, k) * binomial(b, m) <= binomial(a + b, k + m),
    decreases a,
{
    if a == 0 {
        if k == 0 {
            assert(binomial(a, k) * binomial(b, m) == binomial(b, m)) by (nonlinear_arith)
                requires
                    binomial(a, k) == 1,
            ;
        } else {
            assert(binomial(a, k) == 0);
            assert(binomial(a, k) * binomial(b, m) == 0) by (nonlinear_arith)
                requires
                    binomial(a, k) == 0,
            ;
        }
    } else if k == 0 {
        let s = (a - 1) as nat;
        lemma_binomial_product(s, 0, b, m);
        lemma_binomial_grows_with_pool(s + b, m);
        assert(binomial(a, 0) == 1);
        assert(binomial(a, k) * binomial(b, m) == binomial(b, m)) by (nonlinear_arith)
            requires
                binomial(a, k) == 1,
        ;
        assert(binomial(s, 0) * binomial(b, m) == binomial(b, m)) by (nonlinear_arith)
            requires
                binomial(s, 0) == 1,
        ;
    } else {
        let s = (a - 1) as nat;
        let k1 = (k - 1) as nat;
        lemma_binomial_product(s, k1, b, m);
        lemma_binomial_product(s, k, b, m);
        assert(binomial(a, k) == binomial(s, k1) + binomial(s, k));
        assert(binomial(a + b, k + m) == binomial(s + b, k1 + m) + binomial(s + b, k + m));
        let x = binomial(s, k1);
        let y = binomial(s, k);
        let z = binomial(b, m);
        assert((x + y) * z == x * z + y * z) by (nonlinear_arith);
    }
}

/// `C(a, 0) C(b, m) + C(a, 1) C(b, m - 1) + ...`, the first `t` terms.
pub open spec fn convolution(a: nat, b: nat, m: nat, t: nat) -> nat
    decreases t,
{
    if t == 0 {
        0
    } else {
        convolution(a, b, m, (t - 1) as nat) + binomial(a, (t - 1) as nat) * binomial(
            b,
            (m - (t - 1)) as nat,
        )
    }
}

proof fn lemma_convolution_empty_left(b: nat, m: nat, t: nat)
    requires
        1 <= t,
    ensures
        convolution(0, b, m, t) == binomial(b, m),
    decreases t,
{
    if t > 1 {
        lemma_convolution_empty_left(b, m, (t - 1) as nat);
        assert(binomial(0, (t - 1) as nat) == 0);
        assert(binomial(0, (t - 1) as nat) * binomial(b, (m - (t - 1)) as nat) == 0) by (nonlinear_arith)
            requires
                binomial(0, (t - 1) as nat) == 0,
        ;
    } else {
        assert(convolution(0, b, m, 0) == 0);
        assert(binomial(0, 0) * binomial(b, m) == binomial(b, m)) by (nonlinear_arith)
            requires
                binomial(0, 0) == 1,
        ;
    }
}

proof fn lemma_convolution_split(a: nat, b: nat, m: nat, t: nat)
    requires
        a >= 1,
        m >= 1,
        1 <= t <= m + 1,
    ensures
        convolution(a, b, m, t) == convolution((a - 1) as nat, b, m, t) + convolution(
            (a - 1) as nat,
            b,
            (m - 1) as nat,
            (t - 1) as nat,
        ),
    decreases t,
{
    let a1 = (a - 1) as nat;
    if t == 1 {
        assert(binomial(a, 0) == 1 && binomial(a1, 0) == 1);
        assert(convolution(a, b, m, 0) == 0);
        assert(convolution(a1, b, m, 0) == 0);
        assert(convolution(a1, b, (m - 1) as nat, 0) == 0);
    } else {
        lemma_convolution_split(a, b, m, (t - 1) as nat);
        let l = (t - 1) as nat;
        let c = binomial(b, (m - l) as nat);
        assert(binomial(a, l) == binomial(a1, (l - 1) as nat) + binomial(a1, l));
        assert(((m - 1) as nat - (l - 1)) as nat == (m - l) as nat);
        assert(binomial(a, l) * c == binomial(a1, l) * c + binomial(a1, (l - 1) as nat) * c) by (nonlinear_arith)
            requires
                binomial(a, l) == binomial(a1, (l - 1) as nat) + binomial(a1, l),
        ;
    }
}

/// Vandermonde's identity: choosing `m` from `a + b` is choosing some `l`
/// from `a` and the other `m - l` from `b`.
pub proof fn lemma_vandermonde(a: nat, b: nat, m: nat)
    ensures
        convolution(a, b, m, m + 1) == binomial(a + b, m),
    decreases a,
{
    if a == 0 {
        lemma_convolution_empty_left(b, m, m + 1);
    } else if m == 0 {
        assert(convolution(a, b, 0, 0) == 0);
        assert(convolution(a, b, 0, 1) == binomial(a, 0) * binomial(b, 0));
        assert(binomial(a, 0) * binomial(b, 0) == 1) by (nonlinear_arith)
            requires
                binomial(a, 0) == 1,
                binomial(b, 0) == 1,
        ;
    } else {
        let a1 = (a - 1) as nat;
        lemma_convolution_split(a, b, m, m + 1);
        lemma_vandermonde(a1, b, m);
        lemma_vandermonde(a1, b, (m - 1) as nat);
        assert(binomial(a + b, m) == binomial(a1 + b, (m - 1) as nat) + binomial(a1 + b, m));
    }
}

/// Terms past `C(a, a)` are zero: the convolution stops growing there.
pub proof fn lemma_convolution_settles(a: nat, b: nat, m: nat, t: nat)
    requires
        a + 1 <= t <= m + 1,
    ensures
        convolution(a, b, m, t) == convolution(a, b, m, m + 1),
    decreases m + 1 - t,
{
    if t < m + 1 {
        lemma_convolution_settles(a, b, m, t + 1);
        lemma_binomial_above(a, t);
        assert(binomial(a, t) * binomial(b, (m - t) as nat) == 0) by (nonlinear_arith)
            requires
                binomial(a, t) == 0,
        ;
    }
}

/// The number of ways to choose `k` numbers out of `n`; 0 when `k > n`.
/// The result must fit in a `u64`.
pub fn combinations(n: u64, k: u64) -> (res: u64)
    requires
        binomial(n as nat, k as nat) <= u64::MAX,
    ensures
        res == binomial(n as nat, k as nat),
{
    if k > n {
        proof {
            lemma_binomial_above(n as nat, k as nat);
        }
        return 0;
    }
    if k == 0 || k == n {
        proof {
            lemma_binomial_all(n as nat);
        }
        return 1;
    }
    let small = if k <= n - k { k } else { n - k };
    proof {
        lemma_binomial_symmetric(n as nat, k as nat);
        assert(binomial(n as nat, small as nat) == binomial(n as nat, k as nat));
    }
    let mut res: u128 = 1;
    let mut i: u64 = 1;
    while i <= small
        invariant
            1 <= i <= small + 1,
            small <= n - small,
            2 * small <= n,
            small <= n,
            res == binomial(n as nat, (i - 1) as nat),
            binomial(n as nat, small as nat) <= u64::MAX,
        decreases small + 1 - i,
    {
        proof {
            lemma_binomial_step(n as nat, i as nat);
            lemma_binomial_increasing(n as nat, i as nat, small as nat);
            lemma_binomial_increasing(n as nat, (i - 1) as nat, small as nat);
        }
        let factor: u128 = (n - i + 1) as u128;
        let prev = res;
        let ghost next_binomial = binomial(n as nat, i as nat);
        assert(prev * factor <= u128::MAX) by (nonlinear_arith)
            requires
                prev <= u64::MAX,
                factor <= u64::MAX,
        ;
        let product = prev * factor;
        assert(product == next_binomial * i);
        res = product / (i as u128);
        assert(res == next_binomial) by (nonlinear_arith)
            requires
                product == next_binomial * i,
                res == product / (i as u128),
                i >= 1,
        ;
        i = i + 1;
    }
    res as u64
}


/// The number of ways to choose `k` numbers out of `n`, or nothing when it
/// does not fit in a `u64`.
pub fn checked_combinations(n: u64, k: u64) -> (res: Option<u64>)
    ensures
        match res {
            Some(c) => c == binomial(n as nat, k as nat),
            None => binomial(n as nat, k as nat) > u64::MAX,
        },
{
    if k > n {
        proof {
            lemma_binomial_above(n as nat, k as nat);
        }
        return Some(0);
    }
    if k == 0 || k == n {
        proof {
            lemma_binomial_all(n as nat);
        }
        return Some(1);
    }
    let small = if k <= n - k { k } else { n - k };
    proof {
        lemma_binomial_symmetric(n as nat, k as nat);
    }
    let mut res: u128 = 1;
    let mut i: u64 = 1;
    while i <= small
        invariant
            1 <= i <= small + 1,
            2 * small <= n,
            small <= n,
            binomial(n as nat, small as nat) == binomial(n as nat, k as nat),
            res == binomial(n as nat, (i - 1) as nat),
            res <= u64::MAX,
        decreases small + 1 - i,
    {
        proof {
            lemma_binomial_step(n as nat, i as nat);
            lemma_binomial_increasing(n as nat, i as nat, small as nat);
        }
        let factor: u128 = (n - i + 1) as u128;
        let prev = res;
        let ghost next_binomial = binomial(n as nat, i as nat);
        assert(prev * factor <= u128::MAX) by (nonlinear_arith)
            requires
                prev <= u64::MAX,
                factor <= u64::MAX,
        ;
        let product = prev * factor;
        let next = product / (i as u128);
        assert(next == next_binomial) by (nonlinear_arith)
            requires
                product == next_binomial * i,
                next == product / (i as u128),
                i >= 1,
        ;
        if next > u64::MAX as u128 {
            return None;
        }
        res = next;
        i = i + 1;
    }
    Some(res as u64)
}

} // verus!
