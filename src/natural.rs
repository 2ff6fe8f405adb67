use num_bigint::BigUint;
use num_bigint::RandBigInt;
use num_integer::Integer;
use num_traits::Pow;
use vstd::arithmetic::power::pow;
use vstd::prelude::*;

verus! {

/// The value of little-endian base-2^32 digits.
pub open spec fn digits_value(d: Seq<u32>) -> nat
    decreases d.len(),
{
    if d.len() == 0 {
        0
    } else {
        d[0] as nat + 0x1_0000_0000 * digits_value(d.subrange(1, d.len() as int))
    }
}

/// `d` divides `x`.
pub open spec fn divides(d: nat, x: nat) -> bool {
    exists|k: nat| #[trigger] (d * k) == x
}

/// `g` is the greatest common divisor of `a` and `b`: a common divisor that
/// every common divisor divides.
pub open spec fn is_gcd(a: nat, b: nat, g: nat) -> bool {
    &&& divides(g, a)
    &&& divides(g, b)
    &&& forall|c: nat| divides(c, a) && divides(c, b) ==> #[trigger] divides(c, g)
}

/// `x` is an inverse of `a` modulo `m`.
pub open spec fn is_inverse(a: nat, x: nat, m: nat) -> bool {
    x < m && (a * x) % m == 1nat % m
}

/// `a` has an inverse modulo `m`.
pub open spec fn invertible(a: nat, m: nat) -> bool {
    exists|x: nat| is_inverse(a, x, m)
}

/// An arbitrary-precision natural number, held as little-endian 32-bit digits.
#[derive(Clone, Debug)]
pub struct Natural {
    digits: Vec<u32>,
}

impl View for Natural {
    type V = nat;

    closed spec fn view(&self) -> nat {
        digits_value(self.digits@)
    }
}

impl Natural {
    /// The natural number with the given value.
    pub fn from_u64(x: u64) -> (r: Natural)
        ensures
            r@ == x as nat,
    {
        let lo64: u64 = x & 0xffff_ffffu64;
        let hi64: u64 = x >> 32u64;
        proof {
            assert(lo64 < 0x1_0000_0000) by (bit_vector)
                requires lo64 == x & 0xffff_ffffu64;
            assert(hi64 < 0x1_0000_0000) by (bit_vector)
                requires hi64 == x >> 32u64;
            assert(x == lo64 + hi64 * 0x1_0000_0000u64) by (bit_vector)
                requires lo64 == x & 0xffff_ffffu64, hi64 == x >> 32u64;
        }
        let lo: u32 = lo64 as u32;
        let hi: u32 = hi64 as u32;
        let digits = vec![lo, hi];
        proof {
            let s = digits@;
            reveal_with_fuel(digits_value, 3);
            assert(s.subrange(1, 2).subrange(1, 1) =~= Seq::<u32>::empty());
            assert(s.subrange(1, 2)[0] == hi);
        }
        Natural { digits }
    }

    /// A copy of this number.
    pub fn copy(&self) -> (r: Natural)
        ensures
            r@ == self@,
    {
        Natural { digits: self.digits.clone() }
    }

    /// The little-endian 32-bit digits of this number.
    pub fn to_digits(&self) -> (r: Vec<u32>)
        ensures
            digits_value(r@) == self@,
    {
        self.digits.clone()
    }

    /// The natural number with the given little-endian 32-bit digits.
    pub fn from_digits(digits: Vec<u32>) -> (r: Natural)
        ensures
            r@ == digits_value(digits@),
    {
        Natural { digits }
    }

    /// Relies on num-bigint's `Add` for `BigUint`: the exact sum.
    #[verifier::external_body]
    pub(crate) fn add(&self, o: &Natural) -> (r: Natural)
        ensures
            r@ == self@ + o@,
    {
        let r = BigUint::new(self.digits.clone()) + BigUint::new(o.digits.clone());
        Natural { digits: r.to_u32_digits() }
    }

    /// Relies on num-bigint's `Sub` for `BigUint`: the exact difference; it
    /// panics where the result would be negative.
    #[verifier::external_body]
    pub(crate) fn sub(&self, o: &Natural) -> (r: Natural)
        requires
            o@ <= self@,
        ensures
            r@ == self@ - o@,
    {
        let r = BigUint::new(self.digits.clone()) - BigUint::new(o.digits.clone());
        Natural { digits: r.to_u32_digits() }
    }

    /// Relies on num-bigint's `Mul` for `BigUint`: the exact product.
    #[verifier::external_body]
    pub(crate) fn mul(&self, o: &Natural) -> (r: Natural)
        ensures
            r@ == self@ * o@,
    {
        let r = BigUint::new(self.digits.clone()) * BigUint::new(o.digits.clone());
        Natural { digits: r.to_u32_digits() }
    }

    /// Relies on num-bigint's `Div` for `BigUint`: the floor quotient; it
    /// panics on a zero divisor.
    #[verifier::external_body]
    pub(crate) fn div(&self, o: &Natural) -> (r: Natural)
        requires
            o@ > 0,
        ensures
            r@ == self@ / o@,
    {
        let r = BigUint::new(self.digits.clone()) / BigUint::new(o.digits.clone());
        Natural { digits: r.to_u32_digits() }
    }

    /// Relies on num-bigint's `Rem` for `BigUint`: the remainder; it panics on
    /// a zero divisor.
    #[verifier::external_body]
    pub(crate) fn rem(&self, o: &Natural) -> (r: Natural)
        requires
            o@ > 0,
        ensures
            r@ == self@ % o@,
    {
        let r = BigUint::new(self.digits.clone()) % BigUint::new(o.digits.clone());
        Natural { digits: r.to_u32_digits() }
    }

    /// Relies on num-traits' `Pow<&BigUint>` for `BigUint`: the exact power.
    #[verifier::external_body]
    pub(crate) fn pow(&self, e: &Natural) -> (r: Natural)
        ensures
            r@ == pow(self@ as int, e@),
    {
        let r = BigUint::new(self.digits.clone()).pow(&BigUint::new(e.digits.clone()));
        Natural { digits: r.to_u32_digits() }
    }

    /// Relies on `BigUint::modpow`: `(self ^ e) % m`; it panics on a zero modulus.
    #[verifier::external_body]
    pub(crate) fn modpow(&self, e: &Natural, m: &Natural) -> (r: Natural)
        requires
            m@ > 0,
        ensures
            r@ == pow(self@ as int, e@) % (m@ as int),
    {
        let b = BigUint::new(self.digits.clone());
        let r = b.modpow(&BigUint::new(e.digits.clone()), &BigUint::new(m.digits.clone()));
        Natural { digits: r.to_u32_digits() }
    }

    /// Relies on `BigUint::modinv`: the inverse in `[0, m)` where one exists,
    /// `None` otherwise; it panics on a zero modulus.
    #[verifier::external_body]
    pub(crate) fn modinv(&self, m: &Natural) -> (r: Option<Natural>)
        requires
            m@ > 0,
        ensures
            r is Some <==> invertible(self@, m@),
            r matches Some(x) ==> is_inverse(self@, x@, m@),
    {
        let b = BigUint::new(self.digits.clone());
        match b.modinv(&BigUint::new(m.digits.clone())) {
            Some(x) => Some(Natural { digits: x.to_u32_digits() }),
            None => None,
        }
    }

    /// Relies on num-integer's `Integer::gcd` for `BigUint`: the greatest
    /// common divisor.
    #[verifier::external_body]
    pub(crate) fn gcd(&self, o: &Natural) -> (r: Natural)
        ensures
            is_gcd(self@, o@, r@),
    {
        let r = BigUint::new(self.digits.clone()).gcd(&BigUint::new(o.digits.clone()));
        Natural { digits: r.to_u32_digits() }
    }

    /// Relies on num-bigint's `PartialOrd` for `BigUint`: numeric order.
    #[verifier::external_body]
    pub(crate) fn lt(&self, o: &Natural) -> (r: bool)
        ensures
            r == (self@ < o@),
    {
        BigUint::new(self.digits.clone()) < BigUint::new(o.digits.clone())
    }

    /// Relies on num-bigint's `PartialEq` for `BigUint`: numeric equality.
    #[verifier::external_body]
    pub(crate) fn eq(&self, o: &Natural) -> (r: bool)
        ensures
            r == (self@ == o@),
    {
        BigUint::new(self.digits.clone()) == BigUint::new(o.digits.clone())
    }
}

/// Relies on num-bigint's `RandBigInt::gen_biguint_range` with the thread-local
/// generator of rand: a draw in `[lo, hi)`; it panics on an empty range.
#[verifier::external_body]
pub(crate) fn random_in_range(lo: &Natural, hi: &Natural) -> (r: Natural)
    requires
        lo@ < hi@,
    ensures
        lo@ <= r@ < hi@,
{
    let mut rng = rand::thread_rng();
    let r = rng.gen_biguint_range(&BigUint::new(lo.digits.clone()), &BigUint::new(hi.digits.clone()));
    Natural { digits: r.to_u32_digits() }
}

/// Relies on num-primes' `Generator::safe_prime`: a random draw of at most
/// `bits` bits that passed its probabilistic safe-prime test. Nothing is
/// stated of the value; the caller checks what it needs. For few bits the
/// search may never end or may panic: a draw of 3 or 7 sends 3 through its
/// Miller-Rabin test, which then samples from an empty range. From 64 bits
/// on such a draw has probability about `2^-61`.
#[verifier::external_body]
pub(crate) fn random_safe_prime(bits: u64) -> (r: Natural)
    requires
        bits >= 64,
{
    let p = num_primes::Generator::safe_prime(bits as usize);
    let r = BigUint::from_bytes_le(&p.to_bytes_le());
    Natural { digits: r.to_u32_digits() }
}

} // verus!
