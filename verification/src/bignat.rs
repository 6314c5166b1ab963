//! Arbitrary-precision natural numbers.
//!
//! A number is held as little-endian base-2^32 limbs. The arithmetic itself is
//! done by the `num` crate; this module states what each operation returns.

use num::BigUint;
use num::Integer;
use vstd::arithmetic::power::pow;
use vstd::prelude::*;

verus! {

/// The number that a little-endian sequence of base-2^32 limbs denotes.
pub open spec fn limbs_value(limbs: Seq<u32>) -> nat
    decreases limbs.len(),
{
    if limbs.len() == 0 {
        0
    } else {
        limbs[0] as nat + 0x1_0000_0000 * limbs_value(limbs.drop_first())
    }
}

/// A natural number of any size. Trailing zero limbs are allowed and do not
/// change the number.
#[derive(Debug)]
pub struct BigNat {
    pub limbs: Vec<u32>,
}

impl View for BigNat {
    type V = nat;

    open spec fn view(&self) -> nat {
        limbs_value(self.limbs@)
    }
}

/// A sequence of limbs denotes zero exactly when every limb is zero.
pub proof fn lemma_zero_limbs(limbs: Seq<u32>)
    ensures
        limbs_value(limbs) == 0 <==> (forall|i: int| 0 <= i < limbs.len() ==> limbs[i] == 0),
    decreases limbs.len(),
{
    if limbs.len() > 0 {
        let rest = limbs.drop_first();
        lemma_zero_limbs(rest);
        if limbs_value(limbs) == 0 {
            assert forall|i: int| 0 <= i < limbs.len() implies limbs[i] == 0 by {
                if i > 0 {
                    assert(limbs[i] == rest[i - 1]);
                }
            }
        } else if limbs[0] == 0 {
            let j = choose|j: int| 0 <= j < rest.len() && rest[j] != 0;
            assert(limbs[j + 1] == rest[j]);
        }
    }
}

/// The first two limbs carry the low 64 bits; what lies above them counts in
/// units of 2^64.
pub proof fn lemma_low_limbs(limbs: Seq<u32>)
    requires
        limbs.len() >= 2,
    ensures
        limbs_value(limbs) == limbs[0] + 0x1_0000_0000 * limbs[1]
            + 0x1_0000_0000_0000_0000 * limbs_value(limbs.skip(2)),
{
    let rest = limbs.drop_first();
    assert(rest.drop_first() =~= limbs.skip(2));
    assert(limbs_value(rest) == rest[0] + 0x1_0000_0000 * limbs_value(rest.drop_first()));
}

impl BigNat {
    /// The natural number `x`.
    pub fn from_u64(x: u64) -> (r: BigNat)
        ensures
            r@ == x,
    {
        let lo: u32 = (x % 0x1_0000_0000) as u32;
        let hi: u32 = (x / 0x1_0000_0000) as u32;
        let mut limbs: Vec<u32> = Vec::new();
        limbs.push(lo);
        limbs.push(hi);
        proof {
            lemma_low_limbs(limbs@);
            assert(limbs@.skip(2) =~= Seq::<u32>::empty());
        }
        BigNat { limbs }
    }

    /// The natural number `x`.
    pub fn from_usize(x: usize) -> (r: BigNat)
        ensures
            r@ == x,
    {
        BigNat::from_u64(x as u64)
    }

    /// Whether the number is zero.
    pub fn is_zero(&self) -> (r: bool)
        ensures
            r == (self@ == 0),
    {
        let n = self.limbs.len();
        let mut i: usize = 0;
        while i < n
            invariant
                i <= n,
                n == self.limbs.len(),
                forall|j: int| 0 <= j < i ==> self.limbs@[j] == 0,
            decreases n - i,
        {
            if self.limbs[i] != 0 {
                proof {
                    lemma_zero_limbs(self.limbs@);
                }
                return false;
            }
            i += 1;
        }
        proof {
            lemma_zero_limbs(self.limbs@);
        }
        true
    }

    /// The number as a `u64`, or `None` when it does not fit.
    pub fn to_u64(&self) -> (r: Option<u64>)
        ensures
            match r {
                Some(x) => x == self@,
                None => self@ > u64::MAX,
            },
    {
        let n = self.limbs.len();
        if n == 0 {
            return Some(0);
        }
        if n == 1 {
            assert(limbs_value(self.limbs@.drop_first()) == 0);
            return Some(self.limbs[0] as u64);
        }
        let mut i: usize = 2;
        while i < n
            invariant
                2 <= i <= n,
                n == self.limbs.len(),
                forall|j: int| 2 <= j < i ==> self.limbs@[j] == 0,
            decreases n - i,
        {
            if self.limbs[i] != 0 {
                proof {
                    lemma_low_limbs(self.limbs@);
                    lemma_zero_limbs(self.limbs@.skip(2));
                    assert(self.limbs@.skip(2)[i - 2] != 0);
                }
                return None;
            }
            i += 1;
        }
        proof {
            lemma_low_limbs(self.limbs@);
            lemma_zero_limbs(self.limbs@.skip(2));
        }
        assert forall|j: int| 0 <= j < self.limbs@.skip(2).len() implies self.limbs@.skip(2)[j]
            == 0 by {
            assert(self.limbs@.skip(2)[j] == self.limbs@[j + 2]);
        }
        Some((self.limbs[1] as u64) * 0x1_0000_0000 + (self.limbs[0] as u64))
    }
}

/// Product of two naturals, computed by `num`'s `BigUint` multiplication.
///
/// Trusted: the limbs handed to `BigUint::from_slice` and those that
/// `BigUint::to_u32_digits` hands back are base-2^32 digits, least significant
/// first, and `*` on `BigUint` is exact multiplication.
#[verifier::external_body]
pub(crate) fn big_mul(a: &BigNat, b: &BigNat) -> (r: BigNat)
    ensures
        r@ == a@ * b@,
{
    BigNat { limbs: (BigUint::from_slice(&a.limbs) * BigUint::from_slice(&b.limbs)).to_u32_digits() }
}

/// Sum of two naturals, computed by `num`'s `BigUint` addition.
///
/// Trusted: `+` on `BigUint` is exact addition, with the limb conventions of
/// `BigUint::from_slice` and `BigUint::to_u32_digits`.
#[verifier::external_body]
pub(crate) fn big_add(a: &BigNat, b: &BigNat) -> (r: BigNat)
    ensures
        r@ == a@ + b@,
{
    BigNat { limbs: (BigUint::from_slice(&a.limbs) + BigUint::from_slice(&b.limbs)).to_u32_digits() }
}

/// Quotient and remainder of `a` by a non-zero `b`, computed by
/// `Integer::div_mod_floor` on `BigUint`.
///
/// Trusted: for naturals floored division is ordinary division with
/// remainder. The divisor must not be zero, on which `num` panics.
#[verifier::external_body]
pub(crate) fn big_div_mod(a: &BigNat, b: &BigNat) -> (r: (BigNat, BigNat))
    requires
        b@ != 0,
    ensures
        r.0@ == a@ / b@,
        r.1@ == a@ % b@,
{
    let (q, m) = BigUint::from_slice(&a.limbs).div_mod_floor(&BigUint::from_slice(&b.limbs));
    (BigNat { limbs: q.to_u32_digits() }, BigNat { limbs: m.to_u32_digits() })
}

/// `base` raised to the power `exp`, computed by `num::pow::pow` on `BigUint`.
///
/// Trusted: `pow` multiplies `base` with itself `exp` times by repeated
/// squaring, and gives one for the exponent zero.
#[verifier::external_body]
pub(crate) fn big_pow(base: &BigNat, exp: usize) -> (r: BigNat)
    ensures
        r@ == pow(base@ as int, exp as nat),
{
    BigNat { limbs: num::pow::pow(BigUint::from_slice(&base.limbs), exp).to_u32_digits() }
}

} // verus!
