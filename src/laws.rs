use crate::arith::{
    lemma_binomial_encoding, lemma_inverse_of, lemma_lift_power, lemma_unit_power,
};
use crate::lhtlp::{encode_u, encode_v, product_u, product_v, LhtlpError, LHTLP};
use crate::natural::Natural;
use crate::natural::{invertible, is_inverse};
use vstd::arithmetic::div_mod::*;
use vstd::arithmetic::mul::*;
use vstd::arithmetic::power::*;
use vstd::prelude::*;

verus! {

/// Under parameters whose forcing element is the generator after
/// `difficulty` squarings, opening the puzzle on `secret` drawn with any
/// randomness `r` gives the secret modulo the modulus: the secret itself
/// where it is below the modulus.
pub proof fn lemma_round_trip(params: LHTLP, secret: nat, r: nat)
    requires
        params.wf(),
        params.forcing_consistent(),
    ensures
        params.solve_spec(params.puzzle_spec(secret, r).0, params.puzzle_spec(secret, r).1) == Ok::<
            nat,
            LhtlpError,
        >(secret % params.modulus()),
        secret < params.modulus() ==> params.solve_spec(
            params.puzzle_spec(secret, r).0,
            params.puzzle_spec(secret, r).1,
        ) == Ok::<nat, LhtlpError>(secret),
{
    let n = params.modulus() as int;
    let n2 = n * n;
    let g = params.generator() as int;
    let h = params.forcing() as int;
    let t = pow(2, params.difficulty()) as nat;
    lemma_pow_positive(2, params.difficulty());
    lemma_mul_strictly_increases(n, n);
    let (u, v) = params.puzzle_spec(secret, r);
    // w = u^(2^d) mod n agrees with h^r modulo n.
    let w = pow(u as int, t) % n;
    lemma_pow_mod_noop(pow(g, r), t, n);
    lemma_pow_multiplies(g, r, t);
    lemma_pow_mod_noop(pow(g, t), r, n);
    lemma_pow_multiplies(g, t, r);
    assert(r * t == t * r) by (nonlinear_arith);
    let hr = pow(h, r);
    assert(w == hr % n);
    lemma_mod_twice(hr, n);
    // b = w^n mod n^2 is h^(r n) mod n^2.
    let b = pow(w, n as nat) % n2;
    lemma_lift_power(w, hr, n);
    lemma_pow_multiplies(h, r, n as nat);
    assert(b == pow(h, r * (n as nat)) % n2);
    // The encoding of the secret is 1 + (secret mod n) n.
    let e = pow(1 + n, secret) % n2;
    let sm = secret as int % n;
    lemma_binomial_encoding(n, secret);
    lemma_fundamental_div_mod(secret as int, n);
    let sq = secret as int / n;
    assert(1 + secret * n == n2 * sq + (1 + sm * n)) by (nonlinear_arith)
        requires
            secret == n * sq + sm,
            n2 == n * n,
    ;
    lemma_mod_multiples_vanish(sq, 1 + sm * n, n2);
    lemma_mod_bound(secret as int, n);
    assert(1 + sm * n < n2) by (nonlinear_arith)
        requires
            0 <= sm < n,
            n > 1,
            n2 == n * n,
    ;
    lemma_small_mod((1 + sm * n) as nat, n2 as nat);
    assert(e == 1 + sm * n);
    assert(v == (b * e) % n2);
    // b is a unit modulo n^2.
    let z = choose|z: nat| #[trigger] is_inverse(params.generator(), z, params.modulus());
    lemma_small_mod(1, n as nat);
    lemma_unit_power(g, z as int, n, t);
    let zt = pow(z as int, t);
    lemma_mul_mod_noop_left(pow(g, t), zt, n);
    assert((h * zt) % n == 1);
    lemma_unit_power(h, zt, n, r);
    let c = hr * pow(zt, r);
    lemma_small_mod(1, n as nat);
    lemma_lift_power(c, 1, n);
    lemma1_pow(n as nat);
    lemma_small_mod(1, n2 as nat);
    lemma_pow_distributes(hr, pow(zt, r), n as nat);
    lemma_pow_multiplies(zt, r, n as nat);
    let hrn = pow(h, r * (n as nat));
    let zrn = pow(zt, r * (n as nat));
    assert((hrn * zrn) % n2 == 1);
    let y = zrn % n2;
    lemma_mul_mod_noop(hrn, zrn, n2);
    lemma_mod_bound(zrn, n2);
    assert(is_inverse(b as nat, y as nat, n2 as nat));
    lemma_inverse_of(b as nat, y as nat, n2 as nat);
    // Unblinding leaves the encoding.
    let decoded = (v * y) % n2;
    lemma_mul_mod_noop_left(b * e, y, n2);
    assert((b * e) * y == (b * y) * e) by (nonlinear_arith);
    lemma_mul_mod_noop_left(b * y, e, n2);
    lemma_mod_bound(w, n);
    lemma_mod_bound(pow(w, n as nat), n2);
    assert((b * y) % n2 == 1);
    assert(decoded == ((b * y) % n2 * e) % n2);
    let q = (b * y) % n2;
    assert(q * e == e) by (nonlinear_arith)
        requires
            q == 1,
    ;
    assert(decoded == e % n2);
    assert(decoded == e);
    lemma_div_multiples_vanish(sm, n);
    assert(decoded - 1 == n * sm) by (nonlinear_arith)
        requires
            decoded == 1 + sm * n,
    ;
    assert((decoded - 1) / n == sm);
    if secret < n {
        lemma_small_mod(secret, n as nat);
    }
}

/// Where the generator's order divides `(p-1)(q-1)/2`, reducing the
/// exponent `2^difficulty` modulo that number does not change the power:
/// the forcing element is the generator after `difficulty` squarings.
pub proof fn lemma_forcing_from_order(params: LHTLP, p: nat, q: nat, r: nat)
    requires
        params.wf(),
        p >= 3,
        q >= 3,
        params.built_from(p, q, r, params.difficulty()),
        pow(params.generator() as int, ((p - 1) * (q - 1) / 2) as nat) % (params.modulus() as int) == 1,
    ensures
        params.forcing_consistent(),
{
    let n = params.modulus() as int;
    let g = params.generator() as int;
    let ht = ((p - 1) * (q - 1) / 2) as nat;
    assert((p - 1) * (q - 1) >= 4) by (nonlinear_arith)
        requires
            p >= 3,
            q >= 3,
    ;
    lemma_pow_positive(2, params.difficulty());
    let t = pow(2, params.difficulty()) as nat;
    let k = t / ht;
    let rest = t % ht;
    lemma_fundamental_div_mod(t as int, ht as int);
    assert(t == ht * k + rest);
    lemma_pow_adds(g, ht * k, rest);
    lemma_pow_multiplies(g, ht, k);
    lemma_pow_mod_noop(pow(g, ht), k, n);
    lemma1_pow(k);
    lemma_small_mod(1, n as nat);
    lemma_mul_mod_noop_left(pow(pow(g, ht), k), pow(g, rest), n);
    assert(pow(g, t) == pow(g, ht * k) * pow(g, rest));
    let a = pow(pow(g, ht), k);
    assert(pow(g, ht) % n == 1);
    assert(a % n == 1);
    let q1 = a % n;
    let b = pow(g, rest);
    assert(q1 * b == b) by (nonlinear_arith)
        requires
            q1 == 1,
    ;
    assert((a * b) % n == b % n);
    assert(pow(g, t) % n == pow(g, rest) % n);
}

/// Parameters set up with difficulty zero ask for no squaring: the
/// exponent `2^difficulty` is one and the forcing element is the generator,
/// so opening a puzzle is immediate decoding.
pub proof fn lemma_zero_difficulty(params: LHTLP, p: nat, q: nat, r: nat)
    requires
        params.wf(),
        p >= 3,
        q >= 3,
        params.built_from(p, q, r, 0),
    ensures
        pow(2, params.difficulty()) == 1,
        params.forcing() == params.generator(),
        params.forcing_consistent(),
{
    let half_totient = ((p - 1) * (q - 1) / 2) as int;
    assert((p - 1) * (q - 1) >= 4) by (nonlinear_arith)
        requires
            p >= 3,
            q >= 3,
    ;
    lemma_pow0(2);
    lemma_small_mod(1, half_totient as nat);
    lemma_pow1(params.generator() as int);
    lemma_small_mod(params.generator(), params.modulus());
}

/// Combining no puzzles gives `(1, 1)`, which opens to zero.
pub proof fn lemma_empty_evaluation(params: LHTLP)
    requires
        params.wf(),
    ensures
        params.evaluate_spec(Seq::empty()) == (1nat, 1nat),
        params.solve_spec(1, 1) == Ok::<nat, LhtlpError>(0),
{
    let n = params.modulus() as int;
    let n2 = n * n;
    lemma_mul_strictly_increases(n, n);
    lemma_small_mod(1, n as nat);
    lemma_small_mod(1, n2 as nat);
    lemma1_pow(pow(2, params.difficulty()) as nat);
    lemma1_pow(n as nat);
    assert(is_inverse(1, 1, n2 as nat));
    lemma_inverse_of(1, 1, n2 as nat);
}

/// Combining a single puzzle changes nothing that opening it sees.
pub proof fn lemma_singleton_evaluation(params: LHTLP, puzzle: (Natural, Natural))
    requires
        params.wf(),
    ensures
        params.solve_spec(
            params.evaluate_spec(seq![puzzle]).0,
            params.evaluate_spec(seq![puzzle]).1,
        ) == params.solve_spec(puzzle.0@, puzzle.1@),
{
    let n = params.modulus() as int;
    let n2 = n * n;
    lemma_mul_strictly_increases(n, n);
    let s = seq![puzzle];
    assert(s.drop_last() =~= Seq::<(Natural, Natural)>::empty());
    reveal_with_fuel(product_u, 2);
    reveal_with_fuel(product_v, 2);
    assert(product_u(s.drop_last()) == 1);
    assert(product_v(s.drop_last()) == 1);
    assert(s.last() == puzzle);
    assert(s.len() == 1);
    assert(product_u(s) == product_u(s.drop_last()) * s.last().0@);
    assert(product_u(s) == puzzle.0@);
    assert(product_v(s) == product_v(s.drop_last()) * s.last().1@);
    assert(product_v(s) == puzzle.1@);
    let t = pow(2, params.difficulty()) as nat;
    lemma_pow_mod_noop(puzzle.0@ as int, t, n);
    let b = (pow((pow(puzzle.0@ as int, t) % n), n as nat) % n2) as nat;
    if invertible(b, n2 as nat) {
        let inv = crate::arith::inverse_of(b, n2 as nat) as int;
        lemma_mul_mod_noop_left(puzzle.1@ as int, inv, n2);
    }
}

/// The sum of a sequence of naturals.
pub open spec fn sum(s: Seq<nat>) -> nat
    decreases s.len(),
{
    if s.len() == 0 {
        0
    } else {
        sum(s.drop_last()) + s.last()
    }
}

proof fn lemma_mod_product4(a: int, b: int, c: int, d: int, m: int)
    requires
        m > 0,
    ensures
        (((a * b) % m) * ((c * d) % m)) % m == ((a * c) * (b * d)) % m,
{
    lemma_mul_mod_noop(a * b, c * d, m);
    assert((a * b) * (c * d) == (a * c) * (b * d)) by (nonlinear_arith);
}

/// Combining puzzles drawn with randomness `rands` on `secrets` gives the
/// puzzle on the sum of the secrets, drawn with the sum of the randomness.
proof fn lemma_evaluate_generated(
    params: LHTLP,
    secrets: Seq<nat>,
    rands: Seq<nat>,
    puzzles: Seq<(Natural, Natural)>,
)
    requires
        params.wf(),
        secrets.len() == puzzles.len(),
        rands.len() == puzzles.len(),
        forall|i: int|
            0 <= i < puzzles.len() ==> (#[trigger] puzzles[i].0@, puzzles[i].1@) == params.puzzle_spec(
                secrets[i],
                rands[i],
            ),
    ensures
        params.evaluate_spec(puzzles) == params.puzzle_spec(sum(secrets), sum(rands)),
    decreases puzzles.len(),
{
    let n = params.modulus() as int;
    let n2 = n * n;
    let g = params.generator() as int;
    let h = params.forcing() as int;
    lemma_mul_strictly_increases(n, n);
    if puzzles.len() == 0 {
        lemma_pow0(g);
        lemma_pow0(h);
        lemma_pow0(n + 1);
        assert(0 * (n as nat) == 0);
        lemma_small_mod(1, n as nat);
        lemma_small_mod(1, n2 as nat);
        assert(sum(rands) == 0);
        assert(sum(secrets) == 0);
        assert(product_u(puzzles) == 1);
        assert(product_v(puzzles) == 1);
        assert(encode_u(g as nat, n as nat, 0) == 1);
        assert(encode_v(h as nat, n as nat, 0, 0) == 1);
    } else {
        let k = puzzles.len() - 1;
        let (sp, rp, pp) = (secrets.drop_last(), rands.drop_last(), puzzles.drop_last());
        assert forall|i: int| 0 <= i < pp.len() implies (#[trigger] pp[i].0@, pp[i].1@)
            == params.puzzle_spec(sp[i], rp[i]) by {
            assert(pp[i] == puzzles[i]);
        }
        lemma_evaluate_generated(params, sp, rp, pp);
        let (rr, ss) = (sum(rp), sum(sp));
        let (rl, sl) = (rands[k], secrets[k]);
        assert(puzzles[k] == puzzles.last());
        assert((puzzles[k].0@, puzzles[k].1@) == params.puzzle_spec(sl, rl));
        // First halves.
        lemma_mul_mod_noop(product_u(pp) as int, puzzles.last().0@ as int, n);
        lemma_mod_twice(pow(g, rl), n);
        lemma_mul_mod_noop(pow(g, rr), pow(g, rl), n);
        lemma_pow_adds(g, rr, rl);
        assert(sum(rands) == rr + rl);
        assert(sum(secrets) == ss + sl);
        assert(product_u(puzzles) == product_u(pp) * puzzles.last().0@);
        assert(product_u(pp) % (n as nat) == pow(g, rr) % n);
        assert(puzzles.last().0@ == pow(g, rl) % n);
        assert(product_u(puzzles) % (n as nat) == pow(g, sum(rands)) % n);
        // Second halves.
        let hp = pow(h, rr * (n as nat));
        let hl = pow(h, rl * (n as nat));
        let ep = pow(1 + n, ss);
        let el = pow(1 + n, sl);
        lemma_mul_mod_noop(hp, ep, n2);
        lemma_mul_mod_noop(hl, el, n2);
        lemma_mul_mod_noop(product_v(pp) as int, puzzles.last().1@ as int, n2);
        lemma_mod_twice(hp * ep, n2);
        lemma_mod_twice(hl * el, n2);
        lemma_mod_product4(hp, ep, hl, el, n2);
        lemma_pow_adds(h, rr * (n as nat), rl * (n as nat));
        lemma_pow_adds(1 + n, ss, sl);
        assert(rr * (n as nat) + rl * (n as nat) == (rr + rl) * (n as nat)) by (nonlinear_arith);
        let hs = pow(h, sum(rands) * (n as nat));
        let es = pow(1 + n, sum(secrets));
        lemma_mul_mod_noop(hs, es, n2);
        assert(product_v(puzzles) == product_v(pp) * puzzles.last().1@);
        assert(product_v(pp) % (n2 as nat) == (hp * ep) % n2);
        assert(puzzles.last().1@ == (hl * el) % n2);
        assert(product_v(puzzles) % (n2 as nat) == (hs * es) % n2);
    }
}

/// Opening the combination of puzzles gives the sum of their secrets modulo
/// the modulus (the sum itself where it stays below), under parameters whose
/// forcing element is the generator after `difficulty` squarings.
pub proof fn lemma_homomorphism(
    params: LHTLP,
    secrets: Seq<nat>,
    rands: Seq<nat>,
    puzzles: Seq<(Natural, Natural)>,
)
    requires
        params.wf(),
        params.forcing_consistent(),
        secrets.len() == puzzles.len(),
        rands.len() == puzzles.len(),
        forall|i: int|
            0 <= i < puzzles.len() ==> (#[trigger] puzzles[i].0@, puzzles[i].1@) == params.puzzle_spec(
                secrets[i],
                rands[i],
            ),
    ensures
        params.solve_spec(params.evaluate_spec(puzzles).0, params.evaluate_spec(puzzles).1) == Ok::<
            nat,
            LhtlpError,
        >(sum(secrets) % params.modulus()),
        sum(secrets) < params.modulus() ==> params.solve_spec(
            params.evaluate_spec(puzzles).0,
            params.evaluate_spec(puzzles).1,
        ) == Ok::<nat, LhtlpError>(sum(secrets)),
{
    lemma_evaluate_generated(params, secrets, rands, puzzles);
    lemma_round_trip(params, sum(secrets), sum(rands));
}

} // verus!
