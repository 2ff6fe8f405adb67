use crate::natural::{invertible, is_inverse};
use vstd::arithmetic::div_mod::*;
use vstd::arithmetic::mul::*;
use vstd::arithmetic::power::*;
use vstd::prelude::*;

verus! {

/// The inverse of `a` modulo `m`, where one exists.
pub open spec fn inverse_of(a: nat, m: nat) -> nat
    recommends
        invertible(a, m),
{
    choose|x: nat| is_inverse(a, x, m)
}

/// An inverse modulo `m` is unique.
pub proof fn lemma_inverse_unique(a: nat, x: nat, y: nat, m: nat)
    requires
        m > 0,
        is_inverse(a, x, m),
        is_inverse(a, y, m),
    ensures
        x == y,
{
    let mi = m as int;
    let (ai, xi, yi) = (a as int, x as int, y as int);
    lemma_mul_mod_noop_right(xi, ai * yi, mi);
    lemma_mul_mod_noop_left(ai * xi, yi, mi);
    assert(xi * (ai * yi) == (ai * xi) * yi) by (nonlinear_arith);
    lemma_mul_mod_noop_right(xi, 1, mi);
    lemma_mul_mod_noop_left(1, yi, mi);
    lemma_small_mod(x, m);
    lemma_small_mod(y, m);
}

/// The result of `modinv` is the inverse.
pub proof fn lemma_inverse_of(a: nat, x: nat, m: nat)
    requires
        m > 0,
        is_inverse(a, x, m),
    ensures
        invertible(a, m),
        inverse_of(a, m) == x,
{
    assert(invertible(a, m));
    lemma_inverse_unique(a, x, inverse_of(a, m), m);
}

/// The binomial encoding: `(1 + n)^s ≡ 1 + s n (mod n^2)`.
pub proof fn lemma_binomial_encoding(n: int, s: nat)
    requires
        n > 0,
    ensures
        pow(1 + n, s) % (n * n) == (1 + s * n) % (n * n),
    decreases s,
{
    reveal(pow);
    let m = n * n;
    lemma_mul_strictly_positive(n, n);
    if s > 0 {
        let k = (s - 1) as nat;
        lemma_binomial_encoding(n, k);
        lemma_mul_mod_noop_right(1 + n, pow(1 + n, k), m);
        lemma_mul_mod_noop_right(1 + n, 1 + k * n, m);
        assert((1 + n) * (1 + k * n) == m * k + (1 + s * n)) by (nonlinear_arith)
            requires
                m == n * n,
                s == k + 1,
        ;
        lemma_mod_multiples_vanish(k as int, 1 + s * n, m);
    }
}

/// `(y + t n)(y b + j b t n) = n^2 (j b t^2) + y (y b) + (j + 1)(y b) t n`.
proof fn lemma_expansion_step(y: int, t: int, n: int, b: int, j: int)
    ensures
        (y + t * n) * (y * b + j * b * t * n) == (n * n) * (j * b * t * t) + (y * (y * b) + (j + 1) * (y * b) * t * n),
{
    assert((y + t * n) * (y * b + j * b * t * n) == y * (y * b) + y * (j * b * t * n) + (t * n) * (y * b) + (t * n) * (j * b * t * n)) by (nonlinear_arith);
    assert(y * (j * b * t * n) == j * (y * b) * t * n) by (nonlinear_arith);
    assert((t * n) * (y * b) == (y * b) * t * n) by (nonlinear_arith);
    assert((t * n) * (j * b * t * n) == (n * n) * (j * b * t * t)) by (nonlinear_arith);
    assert(j * (y * b) * t * n + (y * b) * t * n == (j + 1) * (y * b) * t * n) by (nonlinear_arith);
}

/// The first-order expansion of `(y + t n)^k` modulo `n^2`.
proof fn lemma_power_expansion(y: int, t: int, n: int, k: nat)
    requires
        n > 0,
        k >= 1,
    ensures
        pow(y + t * n, k) % (n * n) == (pow(y, k) + k * pow(y, (k - 1) as nat) * t * n) % (n * n),
    decreases k,
{
    reveal(pow);
    let m = n * n;
    let x = y + t * n;
    lemma_mul_strictly_positive(n, n);
    if k == 1 {
        assert(pow(y, 0) == 1);
        assert(pow(x, 1) == x * pow(x, 0));
        assert(pow(y, 1) == y * pow(y, 0));
        let p0 = pow(y, 0);
        assert(1 * p0 * t * n == t * n) by (nonlinear_arith)
            requires
                p0 == 1,
        ;
    } else {
        let j = (k - 1) as nat;
        let jj = (k - 2) as nat;
        lemma_power_expansion(y, t, n, j);
        let yj = pow(y, j);
        let yjj = pow(y, jj);
        assert(yj == y * yjj);
        assert(pow(y, k) == y * yj);
        assert(pow(x, k) == x * pow(x, j));
        lemma_mul_mod_noop_right(x, pow(x, j), m);
        lemma_mul_mod_noop_right(x, yj + j * yjj * t * n, m);
        let c = j * yjj * t * t;
        lemma_expansion_step(y, t, n, yjj, j as int);
        assert((j - 1) as nat == jj);
        assert(pow(x, j) % m == (yj + j * yjj * t * n) % m);
        assert(y * yjj + j * yjj * t * n == yj + j * yjj * t * n);
        assert(x * (yj + j * yjj * t * n) == m * c + (y * yj + k * yj * t * n));
        assert(pow(x, k) % m == (x * (yj + j * yjj * t * n)) % m);
        lemma_mod_multiples_vanish(c, y * yj + k * yj * t * n, m);
        assert((k - 1) as nat == j);
        assert(pow(x, k) % m == (y * yj + k * yj * t * n) % m);
    }
}

/// Agreement modulo `n` lifts to agreement of `n`-th powers modulo `n^2`.
pub proof fn lemma_lift_power(x: int, y: int, n: int)
    requires
        n > 0,
        x % n == y % n,
    ensures
        pow(x, n as nat) % (n * n) == pow(y, n as nat) % (n * n),
{
    let t = x / n - y / n;
    lemma_fundamental_div_mod(x, n);
    lemma_fundamental_div_mod(y, n);
    assert(x == y + t * n) by (nonlinear_arith)
        requires
            x == n * (x / n) + x % n,
            y == n * (y / n) + y % n,
            x % n == y % n,
            t == x / n - y / n,
    ;
    lemma_power_expansion(y, t, n, n as nat);
    let c = pow(y, (n - 1) as nat) * t;
    assert(n * pow(y, (n - 1) as nat) * t * n == (n * n) * c) by (nonlinear_arith)
        requires
            c == pow(y, (n - 1) as nat) * t,
    ;
    lemma_mul_strictly_positive(n, n);
    lemma_mod_multiples_vanish(c, pow(y, n as nat), n * n);
}

/// Powers of a unit are units: if `a y ≡ 1 (mod m)` then
/// `a^k y^k ≡ 1 (mod m)`.
pub proof fn lemma_unit_power(a: int, y: int, m: int, k: nat)
    requires
        m > 1,
        (a * y) % m == 1,
    ensures
        (pow(a, k) * pow(y, k)) % m == 1,
{
    lemma_pow_distributes(a, y, k);
    lemma_pow_mod_noop(a * y, k, m);
    lemma1_pow(k);
    lemma_small_mod(1, m as nat);
}

} // verus!
