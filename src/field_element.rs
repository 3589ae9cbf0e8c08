//! Elements of the field of integers modulo a prime.
use vstd::arithmetic::div_mod::{
    lemma_fundamental_div_mod_converse_mod, lemma_mod_add_multiples_vanish, lemma_mod_bound,
    lemma_mul_mod_noop_left, lemma_mul_mod_noop_right, lemma_small_mod,
};
use vstd::arithmetic::power::{
    lemma_pow0, lemma_pow1, lemma_pow_adds, lemma_pow_mod_noop, lemma_pow_multiplies,
    lemma_square_is_pow2, pow,
};
use vstd::prelude::*;

use crate::prime::{is_prime, lemma_fermat_little};

verus! {

/// A residue modulo `prime`, tagged with the modulus of its field.
///
/// The constructor stores its arguments as given; the arithmetic asks that
/// `0 <= elem < prime` and `prime > 1` (see [`FieldElement::wf`]) and keeps
/// that true of every value it returns.
#[derive(Debug, Clone, Copy, PartialEq, Eq, Structural)]
pub struct FieldElement {
    pub elem: i64,
    pub prime: i64,
}

/// Returned by a binary operation whose operands belong to different fields.
#[derive(Debug, Clone, Copy, PartialEq, Eq, Structural)]
pub struct MismatchedFieldError {
    /// The modulus of the left operand.
    pub left_prime: i64,
    /// The modulus of the right operand.
    pub right_prime: i64,
}

impl FieldElement {
    /// A canonical residue of a field whose modulus is at least two.
    pub open spec fn wf(self) -> bool {
        1 < self.prime && 0 <= self.elem < self.prime
    }

    /// The error that a binary operation on `self` and `other` reports when
    /// their moduli differ.
    pub open spec fn mismatch(self, other: FieldElement) -> MismatchedFieldError {
        MismatchedFieldError { left_prime: self.prime, right_prime: other.prime }
    }

    /// `self + other` in the field of `self`.
    pub open spec fn add_spec(self, other: FieldElement) -> FieldElement {
        FieldElement { elem: ((self.elem + other.elem) % (self.prime as int)) as i64, prime: self.prime }
    }

    /// `self - other` in the field of `self`: the canonical residue of the
    /// difference, also where `other.elem > self.elem`.
    pub open spec fn sub_spec(self, other: FieldElement) -> FieldElement {
        FieldElement { elem: ((self.elem - other.elem) % (self.prime as int)) as i64, prime: self.prime }
    }

    /// `self * other` in the field of `self`.
    pub open spec fn mul_spec(self, other: FieldElement) -> FieldElement {
        FieldElement { elem: ((self.elem * other.elem) % (self.prime as int)) as i64, prime: self.prime }
    }

    /// The exponent that `self` is raised to for `num`: `num` itself when it
    /// is not negative, else `num` reduced modulo the order `prime - 1` of
    /// the multiplicative group.
    pub open spec fn exponent_for(self, num: int) -> nat {
        if num < 0 {
            (num % (self.prime - 1)) as nat
        } else {
            num as nat
        }
    }

    /// `self` raised to `num`, reduced modulo the prime.
    pub open spec fn pow_spec(self, num: int) -> FieldElement {
        FieldElement {
            elem: (pow(self.elem as int, self.exponent_for(num)) % (self.prime as int)) as i64,
            prime: self.prime,
        }
    }

    /// `self / other`: `self` times `other` raised to `prime - 2`, which by
    /// Fermat's little theorem is the inverse of a nonzero `other`.
    pub open spec fn div_spec(self, other: FieldElement) -> FieldElement {
        FieldElement {
            elem: ((self.elem * pow(other.elem as int, (self.prime - 2) as nat)) % (self.prime as int)) as i64,
            prime: self.prime,
        }
    }

    /// Makes the element `elem` of the field modulo `prime`, storing both as given.
    pub fn new(elem: i64, prime: i64) -> (r: FieldElement)
        ensures
            r.elem == elem,
            r.prime == prime,
    {
        FieldElement { elem, prime }
    }

    /// The sum of two elements of one field.
    pub fn add(self, other: FieldElement) -> (r: Result<FieldElement, MismatchedFieldError>)
        requires
            self.wf(),
            other.wf(),
        ensures
            self.prime == other.prime ==> r == Ok::<FieldElement, MismatchedFieldError>(self.add_spec(other)),
            self.prime != other.prime ==> r == Err::<FieldElement, MismatchedFieldError>(self.mismatch(other)),
            r matches Ok(c) ==> c.wf(),
    {
        if self.prime != other.prime {
            return Err(MismatchedFieldError { left_prime: self.prime, right_prime: other.prime });
        }
        let s: i128 = (self.elem as i128 + other.elem as i128) % (self.prime as i128);
        Ok(FieldElement { elem: s as i64, prime: self.prime })
    }

    /// The difference of two elements of one field.
    pub fn sub(self, other: FieldElement) -> (r: Result<FieldElement, MismatchedFieldError>)
        requires
            self.wf(),
            other.wf(),
        ensures
            self.prime == other.prime ==> r == Ok::<FieldElement, MismatchedFieldError>(self.sub_spec(other)),
            self.prime != other.prime ==> r == Err::<FieldElement, MismatchedFieldError>(self.mismatch(other)),
            r matches Ok(c) ==> c.wf(),
    {
        if self.prime != other.prime {
            return Err(MismatchedFieldError { left_prime: self.prime, right_prime: other.prime });
        }
        // Offset by `p` so that the dividend is never negative, where `%`
        // would give a negative remainder.
        let p: i128 = self.prime as i128;
        let d: i128 = (p + self.elem as i128 - other.elem as i128) % p;
        proof {
            lemma_mod_add_multiples_vanish(self.elem - other.elem, p as int);
        }
        Ok(FieldElement { elem: d as i64, prime: self.prime })
    }

    /// The product of two elements of one field, formed in double width so
    /// that it cannot overflow before it is reduced.
    pub fn mul(self, other: FieldElement) -> (r: Result<FieldElement, MismatchedFieldError>)
        requires
            self.wf(),
            other.wf(),
        ensures
            self.prime == other.prime ==> r == Ok::<FieldElement, MismatchedFieldError>(self.mul_spec(other)),
            self.prime != other.prime ==> r == Err::<FieldElement, MismatchedFieldError>(self.mismatch(other)),
            r matches Ok(c) ==> c.wf(),
    {
        if self.prime != other.prime {
            return Err(MismatchedFieldError { left_prime: self.prime, right_prime: other.prime });
        }
        let a: i128 = self.elem as i128;
        let b: i128 = other.elem as i128;
        let p: i128 = self.prime as i128;
        proof {
            assert(0 <= a * b < 0x4000_0000_0000_0000_0000_0000_0000_0000) by (nonlinear_arith)
                requires
                    0 <= a < 0x8000_0000_0000_0000,
                    0 <= b < 0x8000_0000_0000_0000,
            ;
        }
        let m: i128 = a * b % p;
        Ok(FieldElement { elem: m as i64, prime: self.prime })
    }

    /// `self` raised to `num`. A negative `num` is first reduced, with a
    /// remainder that is never negative, modulo `prime - 1`.
    pub fn pow(self, num: i64) -> (r: FieldElement)
        requires
            self.wf(),
        ensures
            r == self.pow_spec(num as int),
            r.wf(),
    {
        let exp: u64 = if num < 0 {
            num.checked_rem_euclid(self.prime - 1).unwrap() as u64
        } else {
            num as u64
        };
        let v: u64 = mod_pow(self.elem as u64, exp, self.prime as u64);
        FieldElement { elem: v as i64, prime: self.prime }
    }

    /// The quotient of two elements of one field: `self` times the inverse of
    /// `other`, taken as `other` raised to `prime - 2`. Nothing is checked of
    /// a zero divisor: the power is then zero (or one, when `prime` is two).
    pub fn div(self, other: FieldElement) -> (r: Result<FieldElement, MismatchedFieldError>)
        requires
            self.wf(),
            other.wf(),
        ensures
            self.prime == other.prime ==> r == Ok::<FieldElement, MismatchedFieldError>(self.div_spec(other)),
            self.prime != other.prime ==> r == Err::<FieldElement, MismatchedFieldError>(self.mismatch(other)),
            r matches Ok(c) ==> c.wf(),
    {
        if self.prime != other.prime {
            return Err(MismatchedFieldError { left_prime: self.prime, right_prime: other.prime });
        }
        let inverse: FieldElement = other.pow(self.prime - 2);
        let r = self.mul(inverse);
        proof {
            lemma_mul_mod_noop_right(self.elem as int, pow(other.elem as int, (self.prime - 2) as nat), self.prime as int);
        }
        r
    }
}

/// Each operation on two elements of one field gives an element of that field.
pub proof fn lemma_closure(a: FieldElement, b: FieldElement)
    requires
        a.wf(),
        b.wf(),
        a.prime == b.prime,
    ensures
        a.add_spec(b).wf() && a.add_spec(b).prime == a.prime,
        a.sub_spec(b).wf() && a.sub_spec(b).prime == a.prime,
        a.mul_spec(b).wf() && a.mul_spec(b).prime == a.prime,
        a.div_spec(b).wf() && a.div_spec(b).prime == a.prime,
{
    let p = a.prime as int;
    lemma_mod_bound(a.elem + b.elem, p);
    lemma_mod_bound(a.elem - b.elem, p);
    lemma_mod_bound(a.elem * b.elem, p);
    lemma_mod_bound(a.elem * pow(b.elem as int, (p - 2) as nat), p);
}

/// An element minus itself is zero.
pub proof fn lemma_sub_self(a: FieldElement)
    requires
        a.wf(),
    ensures
        a.sub_spec(a).elem == 0,
{
    lemma_small_mod(0, a.prime as nat);
}

/// One is the multiplicative identity.
pub proof fn lemma_mul_one(a: FieldElement)
    requires
        a.wf(),
    ensures
        a.mul_spec(FieldElement { elem: 1, prime: a.prime }).elem == a.elem,
{
    lemma_small_mod(a.elem as nat, a.prime as nat);
}

/// In a field of prime order, `a` times `a^(p-2)` is one for every nonzero `a`:
/// raising to `p - 2` inverts.
pub proof fn lemma_pow_inverts(a: FieldElement)
    requires
        a.wf(),
        is_prime(a.prime as int),
        0 < a.elem,
    ensures
        a.mul_spec(a.pow_spec(a.prime - 2)).elem == 1,
{
    let p = a.prime as int;
    let x = a.elem as int;
    let e = (p - 2) as nat;
    assert(a.exponent_for(p - 2) == e);
    lemma_mod_bound(pow(x, e), p);
    lemma_mul_mod_noop_right(x, pow(x, e), p);
    lemma_pow_adds(x, 1, e);
    lemma_pow1(x);
    assert(pow(x, (p - 1) as nat) == x * pow(x, e));
    lemma_fermat_little(x, p);
}

/// Dividing by `b` is multiplying by `b^(p-2)`.
pub proof fn lemma_div_is_mul_by_pow(a: FieldElement, b: FieldElement)
    requires
        a.wf(),
        b.wf(),
        a.prime == b.prime,
    ensures
        a.div_spec(b) == a.mul_spec(b.pow_spec(b.prime - 2)),
{
    let p = a.prime as int;
    let t = pow(b.elem as int, (p - 2) as nat);
    assert(b.exponent_for(p - 2) == (p - 2) as nat);
    lemma_mod_bound(t, p);
    lemma_mul_mod_noop_right(a.elem as int, t, p);
}

/// The exponent `-1` gives the same element as `p - 2`: both invert.
pub proof fn lemma_pow_minus_one(a: FieldElement)
    requires
        a.wf(),
    ensures
        a.pow_spec(-1) == a.pow_spec(a.prime - 2),
{
    let p = a.prime as int;
    lemma_fundamental_div_mod_converse_mod(-1, p - 1, -1, p - 2);
    assert(a.exponent_for(-1) == a.exponent_for(p - 2));
}

/// One round of square-and-multiply keeps `r * b^e` fixed modulo `m`: the
/// low bit of `e` moves into the accumulator and the base is squared.
proof fn lemma_square_step(r: int, b: int, e: nat, m: int)
    requires
        m > 0,
        e > 0,
    ensures
        e % 2 == 1 ==> ((r * b) % m) * pow((b * b) % m, e / 2) % m == r * pow(b, e) % m,
        e % 2 == 0 ==> r * pow((b * b) % m, e / 2) % m == r * pow(b, e) % m,
{
    let h: nat = e / 2;
    lemma_square_is_pow2(b);
    lemma_pow_multiplies(b, 2, h);
    lemma_pow_mod_noop(b * b, h, m);
    let q = pow((b * b) % m, h);
    let big = pow(b, 2 * h);
    assert(q % m == big % m);
    if e % 2 == 0 {
        assert(e == 2 * h);
        lemma_mul_mod_noop_right(r, q, m);
        lemma_mul_mod_noop_right(r, big, m);
    } else {
        assert(e == 2 * h + 1);
        lemma_pow_adds(b, 2 * h, 1);
        lemma_pow1(b);
        lemma_mul_mod_noop_left(r * b, q, m);
        lemma_mul_mod_noop_right(r * b, q, m);
        lemma_mul_mod_noop_right(r * b, big, m);
        assert((r * b) * big == r * (big * b)) by (nonlinear_arith);
    }
}

/// `base^exp mod m`, by repeated squaring in double-width arithmetic.
fn mod_pow(base: u64, exp: u64, m: u64) -> (r: u64)
    requires
        1 < m,
        base < m,
    ensures
        r == pow(base as int, exp as nat) % (m as int),
{
    let wide_m: u128 = m as u128;
    let mut acc: u128 = 1;
    let mut b: u128 = base as u128;
    let mut e: u64 = exp;
    while e > 0
        invariant
            wide_m == m,
            1 < m,
            acc < wide_m,
            b < wide_m,
            acc * pow(b as int, e as nat) % (m as int) == pow(base as int, exp as nat) % (m as int),
        decreases e,
    {
        proof {
            lemma_square_step(acc as int, b as int, e as nat, m as int);
            assert(acc * b < 0x1_0000_0000_0000_0000_0000_0000_0000_0000) by (nonlinear_arith)
                requires
                    acc < wide_m,
                    b < wide_m,
                    wide_m < 0x1_0000_0000_0000_0000,
            ;
            assert(b * b < 0x1_0000_0000_0000_0000_0000_0000_0000_0000) by (nonlinear_arith)
                requires
                    b < wide_m,
                    wide_m < 0x1_0000_0000_0000_0000,
            ;
        }
        if e % 2 == 1 {
            acc = acc * b % wide_m;
        }
        b = b * b % wide_m;
        e = e / 2;
    }
    proof {
        lemma_pow0(b as int);
        lemma_small_mod(acc as nat, m as nat);
    }
    acc as u64
}

} // verus!
