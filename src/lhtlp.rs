use crate::arith::{inverse_of, lemma_inverse_of};
use crate::natural::{invertible, is_gcd, is_inverse, random_in_range, random_safe_prime, Natural};
use vstd::arithmetic::div_mod::*;
use vstd::arithmetic::mul::*;
use crate::laws::lemma_forcing_from_order;
use vstd::arithmetic::power::*;
use vstd::prelude::*;

verus! {

/// How many draws `setup` makes while looking for a unit modulo the modulus.
pub const MAX_UNIT_DRAWS: u64 = 128;

/// How many draws of the prime generator `setup` makes for each prime of
/// the requested size.
pub const MAX_PRIME_DRAWS: u64 = 64;

/// Why an operation on puzzles failed.
#[derive(PartialEq, Eq, Structural, Clone, Copy, Debug)]
pub enum LhtlpError {
    /// The primes are below 3 or equal, or the prime generator gave no
    /// distinct prime of the requested size within `MAX_PRIME_DRAWS` draws.
    PrimeGeneration,
    /// No unit modulo the modulus turned up within `MAX_UNIT_DRAWS` draws.
    GeneratorSearch,
    /// A modular inverse was needed for a value that has none.
    NotInvertible,
    /// The generator's order does not divide `(p-1)(q-1)/2`: the primes are
    /// not both safe primes.
    GroupOrder,
    /// The puzzle decodes to zero modulo the squared modulus, which no puzzle
    /// made under these parameters does.
    MalformedPuzzle,
}

/// `(p-1)(q-1)/2`, half the order of the group of units modulo `p q`.
pub open spec fn half_totient(p: nat, q: nat) -> nat {
    ((p - 1) * (q - 1) / 2) as nat
}

/// The order of `g` modulo `p q` divides `(p-1)(q-1)/2`.
pub open spec fn order_divides(g: nat, p: nat, q: nat) -> bool {
    pow(g as int, half_totient(p, q)) % ((p * q) as int) == 1
}

/// `u = g^r mod n`: the first half of a puzzle drawn with randomness `r`.
pub open spec fn encode_u(g: nat, n: nat, r: nat) -> nat {
    (pow(g as int, r) % (n as int)) as nat
}

/// `v = (h^(r n) mod n^2) ((1 + n)^s mod n^2) mod n^2`: the second half of a
/// puzzle on secret `s` drawn with randomness `r`.
pub open spec fn encode_v(h: nat, n: nat, s: nat, r: nat) -> nat {
    let n2 = (n * n) as int;
    (((pow(h as int, r * n) % n2) * (pow(n + 1int, s) % n2)) % n2) as nat
}

/// Opening of the puzzle `(u, v)` under difficulty `d` and modulus `n`:
/// `w = u^(2^d) mod n`, then `v` times the inverse of `w^n` modulo `n^2`,
/// minus one, divided by `n`.
pub open spec fn decode(d: nat, n: nat, u: nat, v: nat) -> Result<nat, LhtlpError> {
    let n2 = n * n;
    let w = (pow(u as int, pow(2, d) as nat) % (n as int)) as nat;
    let b = (pow(w as int, n) % (n2 as int)) as nat;
    if !invertible(b, n2) {
        Err(LhtlpError::NotInvertible)
    } else {
        let decoded = (v * inverse_of(b, n2)) % n2;
        if decoded == 0 {
            Err(LhtlpError::MalformedPuzzle)
        } else {
            Ok(((decoded - 1) as nat / n) as nat)
        }
    }
}

/// The product of the first halves of the puzzles.
pub open spec fn product_u(s: Seq<(Natural, Natural)>) -> nat
    decreases s.len(),
{
    if s.len() == 0 {
        1
    } else {
        product_u(s.drop_last()) * s.last().0@
    }
}

/// The product of the second halves of the puzzles.
pub open spec fn product_v(s: Seq<(Natural, Natural)>) -> nat
    decreases s.len(),
{
    if s.len() == 0 {
        1
    } else {
        product_v(s.drop_last()) * s.last().1@
    }
}

/// The public parameters of one instance of the linearly homomorphic
/// time-lock puzzle.
#[derive(Clone, Debug)]
pub struct LHTLP {
    difficulty: Natural,
    n: Natural,
    g: Natural,
    h: Natural,
}

impl LHTLP {
    /// The number of sequential squarings that opening a puzzle takes.
    pub closed spec fn difficulty(&self) -> nat {
        self.difficulty@
    }

    /// The modulus `n`, a product of two safe primes.
    pub closed spec fn modulus(&self) -> nat {
        self.n@
    }

    /// The generator `g`, a square's inverse modulo `n`.
    pub closed spec fn generator(&self) -> nat {
        self.g@
    }

    /// The forcing element `h = g^(2^difficulty)`, computed through the
    /// group order.
    pub closed spec fn forcing(&self) -> nat {
        self.h@
    }

    pub open spec fn wf(&self) -> bool {
        &&& self.modulus() > 1
        &&& self.generator() < self.modulus()
        &&& self.forcing() < self.modulus()
        &&& invertible(self.generator(), self.modulus())
    }

    /// The forcing element is what `difficulty` squarings of the generator
    /// give: `h = g^(2^difficulty) mod n`.
    pub open spec fn forcing_consistent(&self) -> bool {
        self.forcing() == pow(self.generator() as int, pow(2, self.difficulty()) as nat) % (
        self.modulus() as int)
    }

    /// The combination of the puzzles `s`: componentwise products modulo `n`
    /// and `n^2`.
    pub open spec fn evaluate_spec(&self, s: Seq<(Natural, Natural)>) -> (nat, nat) {
        (
            product_u(s) % self.modulus(),
            product_v(s) % (self.modulus() * self.modulus()),
        )
    }

    /// The puzzle on `secret` drawn with randomness `r`.
    pub open spec fn puzzle_spec(&self, secret: nat, r: nat) -> (nat, nat) {
        (
            encode_u(self.generator(), self.modulus(), r),
            encode_v(self.forcing(), self.modulus(), secret, r),
        )
    }

    /// The outcome of opening the puzzle `(u, v)`.
    pub open spec fn solve_spec(&self, u: nat, v: nat) -> Result<nat, LhtlpError> {
        decode(self.difficulty(), self.modulus(), u, v)
    }

    /// These parameters come from the primes `p`, `q`, the unit draw `r` and
    /// the difficulty `d`: `n = p q`, `g` is the inverse of `r^2` modulo `n`,
    /// and `h = g^(2^d mod (p-1)(q-1)/2) mod n`.
    pub open spec fn built_from(&self, p: nat, q: nat, r: nat, d: nat) -> bool {
        let n = p * q;
        let half_totient = ((p - 1) * (q - 1) / 2) as int;
        &&& self.difficulty() == d
        &&& self.modulus() == n
        &&& self.generator() == inverse_of(r * r, n)
        &&& self.forcing() == (pow(self.generator() as int, (pow(2, d) % half_totient) as nat) % (
        n as int)) as nat
    }

    /// Parameters from the given primes `p`, `q` and draw `r`; the primes are
    /// not kept. The generator's order must divide `(p-1)(q-1)/2`, which holds
    /// where `p` and `q` are distinct safe primes and `r` is a unit.
    pub fn setup_with(p: &Natural, q: &Natural, r: &Natural, difficulty: Natural) -> (res: Result<
        LHTLP,
        LhtlpError,
    >)
        ensures
            p@ < 3 || q@ < 3 || p@ == q@ ==> res matches Err(LhtlpError::PrimeGeneration),
            p@ >= 3 && q@ >= 3 && p@ != q@ && !invertible(r@ * r@, p@ * q@) ==> res matches Err(
                LhtlpError::NotInvertible,
            ),
            p@ >= 3 && q@ >= 3 && p@ != q@ && invertible(r@ * r@, p@ * q@) && !order_divides(
                inverse_of(r@ * r@, p@ * q@),
                p@,
                q@,
            ) ==> res matches Err(LhtlpError::GroupOrder),
            p@ >= 3 && q@ >= 3 && p@ != q@ && invertible(r@ * r@, p@ * q@) && order_divides(
                inverse_of(r@ * r@, p@ * q@),
                p@,
                q@,
            ) ==> (res matches Ok(params) && params.wf() && params.forcing_consistent()
                && params.built_from(p@, q@, r@, difficulty@)),
    {
        let three = Natural::from_u64(3);
        if p.lt(&three) || q.lt(&three) || p.eq(q) {
            return Err(LhtlpError::PrimeGeneration);
        }
        let n = p.mul(q);
        proof {
            lemma_mul_strictly_increases(p@ as int, q@ as int);
        }
        let one = Natural::from_u64(1);
        let two = Natural::from_u64(2);
        let g = match r.mul(r).modinv(&n) {
            None => {
                return Err(LhtlpError::NotInvertible);
            },
            Some(g) => g,
        };
        proof {
            lemma_inverse_of(r@ * r@, g@, n@);
            let rr = (r@ * r@) as int;
            lemma_mul_mod_noop_right(g@ as int, rr, n@ as int);
            assert(is_inverse(g@, (rr % (n@ as int)) as nat, n@));
        }
        let totient = p.sub(&one).mul(&q.sub(&one));
        let half_totient = totient.div(&two);
        proof {
            lemma_mul_increases((p@ - 1) as int, (q@ - 1) as int);
            lemma_mul_inequality(2, (p@ - 1) as int, (q@ - 1) as int);
            lemma_div_pos_is_pos(totient@ as int, 2);
        }
        if !g.modpow(&half_totient, &n).eq(&one) {
            return Err(LhtlpError::GroupOrder);
        }
        let e = two.modpow(&difficulty, &half_totient);
        let h = g.modpow(&e, &n);
        let params = LHTLP { difficulty, n, g, h };
        proof {
            lemma_forcing_from_order(params, p@, q@, r@);
        }
        Ok(params)
    }

    /// A safe prime of exactly `lambda` bits, other than `avoid`, from at
    /// most `MAX_PRIME_DRAWS` draws of the prime generator.
    fn draw_safe_prime(lambda: u64, avoid: &Natural) -> (r: Option<Natural>)
        requires
            64 <= lambda,
        ensures
            r matches Some(x) ==> pow(2, (lambda - 1) as nat) <= x@ < pow(2, lambda as nat) && x@
                != avoid@,
    {
        let two = Natural::from_u64(2);
        let low = two.pow(&Natural::from_u64(lambda - 1));
        let high = two.pow(&Natural::from_u64(lambda));
        let mut draws: u64 = 0;
        while draws < MAX_PRIME_DRAWS
            invariant
                64 <= lambda,
                low@ == pow(2, (lambda - 1) as nat),
                high@ == pow(2, lambda as nat),
            decreases MAX_PRIME_DRAWS - draws,
        {
            let x = random_safe_prime(lambda);
            if !x.lt(&low) && x.lt(&high) && !x.eq(avoid) {
                return Some(x);
            }
            draws = draws + 1;
        }
        None
    }

    /// Parameters for a fresh instance: two distinct safe primes of exactly
    /// `lambda` bits, a unit drawn from `[1, n)`, and the difficulty.
    pub fn setup(lambda: u64, difficulty: Natural) -> (res: Result<LHTLP, LhtlpError>)
        requires
            lambda >= 64,
        ensures
            res matches Ok(params) ==> {
                &&& params.wf()
                &&& params.forcing_consistent()
                &&& params.difficulty() == difficulty@
                &&& pow(2, (2 * lambda - 2) as nat) <= params.modulus() < pow(2, (2 * lambda) as nat)
                &&& exists|p: nat, q: nat, r: nat|
                    {
                        &&& pow(2, (lambda - 1) as nat) <= p < pow(2, lambda as nat)
                        &&& pow(2, (lambda - 1) as nat) <= q < pow(2, lambda as nat)
                        &&& p != q
                        &&& 1 <= r < p * q
                        &&& is_gcd(r, p * q, 1)
                        &&& order_divides(params.generator(), p, q)
                        &&& #[trigger] params.built_from(p, q, r, difficulty@)
                    }
            },
            res matches Err(e) ==> e == LhtlpError::PrimeGeneration || e == LhtlpError::GeneratorSearch
                || e == LhtlpError::NotInvertible || e == LhtlpError::GroupOrder,
    {
        let zero = Natural::from_u64(0);
        let p = match LHTLP::draw_safe_prime(lambda, &zero) {
            Some(p) => p,
            None => {
                return Err(LhtlpError::PrimeGeneration);
            },
        };
        let q = match LHTLP::draw_safe_prime(lambda, &p) {
            Some(q) => q,
            None => {
                return Err(LhtlpError::PrimeGeneration);
            },
        };
        let ghost lo = pow(2, (lambda - 1) as nat);
        let ghost hi = pow(2, lambda as nat);
        proof {
            lemma_pow_increases(2, 2, (lambda - 1) as nat);
            lemma_pow_positive(2, 2);
            lemma_pow_adds(2, (lambda - 1) as nat, (lambda - 1) as nat);
            lemma_pow_adds(2, lambda as nat, lambda as nat);
            assert(pow(2, 2) == 4) by {
                reveal_with_fuel(pow, 3);
            }
            assert(((lambda - 1) as nat + (lambda - 1) as nat) as nat == (2 * lambda - 2) as nat);
            assert((lambda as nat + lambda as nat) as nat == (2 * lambda) as nat);
            let (pp, qq) = (p@ as int, q@ as int);
            assert(lo * lo <= pp * qq) by (nonlinear_arith)
                requires
                    0 <= lo <= pp,
                    lo <= qq,
            ;
            assert(pp * qq < hi * hi) by (nonlinear_arith)
                requires
                    0 <= pp < hi,
                    0 <= qq < hi,
            ;
        }
        let n = p.mul(&q);
        proof {
            lemma_mul_strictly_increases(p@ as int, q@ as int);
        }
        let one = Natural::from_u64(1);
        let mut draws: u64 = 0;
        while draws < MAX_UNIT_DRAWS
            invariant
                lo == pow(2, (lambda - 1) as nat),
                hi == pow(2, lambda as nat),
                lo <= p@ < hi,
                lo <= q@ < hi,
                lo >= 4,
                p@ != q@,
                n@ == p@ * q@,
                n@ > 1,
                one@ == 1,
                pow(2, (2 * lambda - 2) as nat) <= n@ < pow(2, (2 * lambda) as nat),
            decreases MAX_UNIT_DRAWS - draws,
        {
            let r = random_in_range(&one, &n);
            if r.gcd(&n).eq(&one) {
                let res = LHTLP::setup_with(&p, &q, &r, difficulty);
                proof {
                    if res is Ok {
                        let params = res->Ok_0;
                        assert(params.built_from(p@, q@, r@, difficulty@));
                        assert(p@ >= 3 && q@ >= 3);
                        assert(invertible(r@ * r@, p@ * q@));
                        assert(order_divides(params.generator(), p@, q@));
                        assert(params.wf() && params.forcing_consistent());
                        assert(is_gcd(r@, p@ * q@, 1));
                        assert(1 <= r@ < p@ * q@);
                        assert(params.modulus() == n@);
                        assert(params.difficulty() == difficulty@);
                        assert(pow(2, (2 * lambda - 2) as nat) <= params.modulus() < pow(
                            2,
                            (2 * lambda) as nat,
                        ));
                        assert(pow(2, (lambda - 1) as nat) <= p@ < pow(2, lambda as nat));
                        assert(pow(2, (lambda - 1) as nat) <= q@ < pow(2, lambda as nat));
                    }
                }
                return res;
            }
            draws = draws + 1;
        }
        Err(LhtlpError::GeneratorSearch)
    }

    /// The puzzle built on `secret` with the randomness `r`.
    pub fn generate_with(&self, secret: u64, r: &Natural) -> (p: (Natural, Natural))
        requires
            self.wf(),
        ensures
            (p.0@, p.1@) == self.puzzle_spec(secret as nat, r@),
    {
        let n2 = self.n.mul(&self.n);
        proof {
            lemma_mul_strictly_positive(self.n@ as int, self.n@ as int);
        }
        let u = self.g.modpow(r, &self.n);
        let rn = r.mul(&self.n);
        let blind = self.h.modpow(&rn, &n2);
        let base = Natural::from_u64(1).add(&self.n);
        let encoded = base.modpow(&Natural::from_u64(secret), &n2);
        let v = blind.mul(&encoded).rem(&n2);
        (u, v)
    }

    /// A fresh puzzle on `secret`, with randomness drawn from `[1, n^2)`.
    pub fn generate(&self, secret: u64) -> (p: (Natural, Natural))
        requires
            self.wf(),
        ensures
            exists|r: nat|
                1 <= r < self.modulus() * self.modulus() && (p.0@, p.1@) == self.puzzle_spec(
                    secret as nat,
                    r,
                ),
    {
        let n2 = self.n.mul(&self.n);
        proof {
            lemma_mul_strictly_increases(self.n@ as int, self.n@ as int);
        }
        let r = random_in_range(&Natural::from_u64(1), &n2);
        self.generate_with(secret, &r)
    }

    /// Opens a puzzle: `difficulty` sequential squarings of its first half
    /// unblind the second, which then decodes to the secret.
    pub fn solve(&self, puzzle: (Natural, Natural)) -> (r: Result<Natural, LhtlpError>)
        requires
            self.wf(),
        ensures
            match r {
                Ok(s) => self.solve_spec(puzzle.0@, puzzle.1@) == Ok::<nat, LhtlpError>(s@),
                Err(e) => self.solve_spec(puzzle.0@, puzzle.1@) == Err::<nat, LhtlpError>(e),
            },
    {
        let n2 = self.n.mul(&self.n);
        proof {
            lemma_mul_strictly_positive(self.n@ as int, self.n@ as int);
        }
        let one = Natural::from_u64(1);
        let exponent = Natural::from_u64(2).pow(&self.difficulty);
        let w = puzzle.0.modpow(&exponent, &self.n);
        let b = w.modpow(&self.n, &n2);
        match b.modinv(&n2) {
            None => Err(LhtlpError::NotInvertible),
            Some(inv) => {
                proof {
                    lemma_inverse_of(b@, inv@, n2@);
                }
                let decoded = puzzle.1.mul(&inv).rem(&n2);
                if decoded.lt(&one) {
                    Err(LhtlpError::MalformedPuzzle)
                } else {
                    Ok(decoded.sub(&one).div(&self.n))
                }
            },
        }
    }

    /// Combines puzzles into one whose secret is the sum of theirs: the
    /// componentwise product, reduced modulo `n` and `n^2`.
    pub fn evaluate(&self, puzzles: Vec<(Natural, Natural)>) -> (p: (Natural, Natural))
        requires
            self.wf(),
        ensures
            (p.0@, p.1@) == self.evaluate_spec(puzzles@),
    {
        let n2 = self.n.mul(&self.n);
        proof {
            lemma_mul_strictly_increases(self.n@ as int, self.n@ as int);
            lemma_small_mod(1, self.n@);
            lemma_small_mod(1, n2@);
        }
        let mut acc_u = Natural::from_u64(1);
        let mut acc_v = Natural::from_u64(1);
        let mut i: usize = 0;
        while i < puzzles.len()
            invariant
                self.wf(),
                n2@ == self.modulus() * self.modulus(),
                n2@ > 1,
                i <= puzzles@.len(),
                acc_u@ == product_u(puzzles@.take(i as int)) % self.modulus(),
                acc_v@ == product_v(puzzles@.take(i as int)) % n2@,
            decreases puzzles@.len() - i,
        {
            let ghost prefix = puzzles@.take(i as int);
            let ghost next = puzzles@.take(i + 1);
            proof {
                assert(next.drop_last() =~= prefix);
                lemma_mul_mod_noop_left(product_u(prefix) as int, puzzles@[i as int].0@ as int, self.modulus() as int);
                lemma_mul_mod_noop_left(product_v(prefix) as int, puzzles@[i as int].1@ as int, n2@ as int);
            }
            acc_u = acc_u.mul(&puzzles[i].0).rem(&self.n);
            acc_v = acc_v.mul(&puzzles[i].1).rem(&n2);
            i = i + 1;
        }
        proof {
            assert(puzzles@.take(i as int) =~= puzzles@);
        }
        (acc_u, acc_v)
    }
}

} // verus!
