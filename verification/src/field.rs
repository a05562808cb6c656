//! Residues modulo a fixed modulus `P`, with the arithmetic of the ring of
//! integers modulo `P`.
//!
//! The arithmetic is stated over natural numbers by the spec functions at the
//! top of this module; every executable operation is proved against them.
use vstd::prelude::*;
use vstd::arithmetic::div_mod::*;
use vstd::arithmetic::mul::*;
use vstd::arithmetic::power::*;

verus! {

/// Sum of two residues.
pub open spec fn add_mod(a: nat, b: nat, p: nat) -> nat {
    (a + b) % p
}

/// Difference of two residues, as the representative in `0..p`.
pub open spec fn sub_mod(a: nat, b: nat, p: nat) -> nat {
    ((a - b) % (p as int)) as nat
}

/// Product of two residues.
pub open spec fn mul_mod(a: nat, b: nat, p: nat) -> nat {
    (a * b) % p
}

/// `a` raised to the power `e`, reduced modulo `p`.
pub open spec fn pow_mod(a: nat, e: nat, p: nat) -> nat {
    (pow(a as int, e) % (p as int)) as nat
}

/// `x` is the representative in `0..p` of the multiplicative inverse of `a`.
pub open spec fn is_inverse(a: nat, x: nat, p: nat) -> bool {
    x < p && (a * x) % p == 1
}

/// `a` has a multiplicative inverse modulo `p`.
pub open spec fn invertible(a: nat, p: nat) -> bool {
    exists|x: nat| is_inverse(a, x, p)
}

/// The multiplicative inverse of `a` modulo `p`, where there is one.
pub open spec fn inverse_mod(a: nat, p: nat) -> nat {
    choose|x: nat| is_inverse(a, x, p)
}

/// Quotient of two residues, where the divisor is invertible.
pub open spec fn div_mod(a: nat, b: nat, p: nat) -> nat {
    mul_mod(a, inverse_mod(b, p), p)
}

/// An integer modulo `P`, held as its representative in `0..P`.
#[derive(Clone, Copy, Debug, PartialEq, Eq, Hash)]
pub struct FieldElement<const P: u64> {
    value: u64,
}

impl<const P: u64> View for FieldElement<P> {
    type V = nat;

    closed spec fn view(&self) -> nat {
        self.value as nat
    }
}

impl<const P: u64> FieldElement<P> {
    #[verifier::type_invariant]
    spec fn reduced(self) -> bool {
        self.value < P
    }

    /// The element that `value` represents: its remainder modulo `P`.
    pub fn new(value: u64) -> (element: Self)
        requires
            P > 0,
        ensures
            element@ == value as nat % P as nat,
    {
        FieldElement { value: value % P }
    }

    /// The additive identity.
    pub fn zero() -> (element: Self)
        requires
            P > 0,
        ensures
            element@ == 0,
    {
        FieldElement { value: 0 }
    }

    /// The representative in `0..P`.
    pub fn value(&self) -> (value: u64)
        ensures
            value as nat == self@,
            value < P,
    {
        proof {
            use_type_invariant(self);
        }
        self.value
    }

    /// The sum.
    pub fn add(self, rhs: Self) -> (sum: Self)
        ensures
            sum@ == add_mod(self@, rhs@, P as nat),
    {
        proof {
            use_type_invariant(self);
            use_type_invariant(rhs);
        }
        let wide: u128 = (self.value as u128 + rhs.value as u128) % (P as u128);
        FieldElement { value: wide as u64 }
    }

    /// The difference.
    pub fn sub(self, rhs: Self) -> (difference: Self)
        ensures
            difference@ == sub_mod(self@, rhs@, P as nat),
    {
        proof {
            use_type_invariant(self);
            use_type_invariant(rhs);
        }
        let value: u64 = if self.value >= rhs.value {
            self.value - rhs.value
        } else {
            P - (rhs.value - self.value)
        };
        proof {
            let a = self.value as int;
            let b = rhs.value as int;
            let p = P as int;
            if a >= b {
                lemma_small_mod((a - b) as nat, p as nat);
            } else {
                lemma_small_mod((p + a - b) as nat, p as nat);
                lemma_mod_add_multiples_vanish(a - b, p);
            }
        }
        FieldElement { value }
    }

    /// The product.
    pub fn mul(self, rhs: Self) -> (product: Self)
        ensures
            product@ == mul_mod(self@, rhs@, P as nat),
    {
        proof {
            use_type_invariant(self);
            use_type_invariant(rhs);
            lemma_product_fits(self.value, rhs.value);
        }
        let wide: u128 = (self.value as u128 * rhs.value as u128) % (P as u128);
        FieldElement { value: wide as u64 }
    }

    /// The multiplicative inverse, or `None` where the element has none:
    /// where its representative and `P` have a common factor.
    pub fn try_inv(self) -> (inverse: Option<Self>)
        ensures
            inverse is Some <==> invertible(self@, P as nat),
            inverse matches Some(x) ==> x@ == inverse_mod(self@, P as nat) && is_inverse(
                self@,
                x@,
                P as nat,
            ),
    {
        proof {
            use_type_invariant(self);
        }
        let a: u64 = self.value;
        // Euclid's algorithm on (P, a); t0 and t1 hold, modulo P, the
        // factors by which `a` gives the two remainders.
        let mut r0: u64 = P;
        let mut r1: u64 = a;
        let mut t0: u64 = 0;
        let mut t1: u64 = 1 % P;
        proof {
            lemma_mod_self_0(P as int);
            lemma_small_mod(0, P as nat);
            assert(t0 * a == 0);
            lemma_mul_mod_noop_left(1, a as int, P as int);
            assert(1 * a == a);
        }
        while r1 != 0
            invariant
                a == self.value,
                a < P,
                0 < r0 <= P,
                r1 < r0,
                t0 < P,
                t1 < P,
                (t0 * a) % (P as int) == r0 % P,
                (t1 * a) % (P as int) == r1 % P,
                forall|d: nat| #[trigger]
                    common_divisor(d, r0 as nat, r1 as nat) ==> common_divisor(
                        d,
                        P as nat,
                        a as nat,
                    ),
            decreases r1,
        {
            let q: u64 = r0 / r1;
            let r2: u64 = r0 % r1;
            proof {
                lemma_product_fits(q, t1);
            }
            let qt: u128 = (q as u128 * t1 as u128) % (P as u128);
            let t2: u64 = ((t0 as u128 + P as u128 - qt) % (P as u128)) as u64;
            proof {
                lemma_fundamental_div_mod(r0 as int, r1 as int);
                lemma_mul_is_commutative(r1 as int, q as int);
                lemma_factor_step(
                    a as int,
                    P as int,
                    q as int,
                    r0 as int,
                    r1 as int,
                    r2 as int,
                    t0 as int,
                    t1 as int,
                    t2 as int,
                );
                assert forall|d: nat| #[trigger]
                    common_divisor(d, r1 as nat, r2 as nat) implies common_divisor(
                    d,
                    P as nat,
                    a as nat,
                ) by {
                    lemma_divides_combination(d, q as nat, r1 as nat, r2 as nat);
                    assert(common_divisor(d, r0 as nat, r1 as nat));
                }
            }
            r0 = r1;
            r1 = r2;
            t0 = t1;
            t1 = t2;
        }
        if r0 == 1 && P > 1 {
            proof {
                lemma_small_mod(1, P as nat);
                lemma_mul_is_commutative(t0 as int, a as int);
                assert(is_inverse(a as nat, t0 as nat, P as nat));
                lemma_inverse_unique(
                    a as nat,
                    t0 as nat,
                    inverse_mod(a as nat, P as nat),
                    P as nat,
                );
            }
            Some(FieldElement { value: t0 })
        } else {
            proof {
                if P == 1 {
                    let residue = a as nat;
                    let modulus = P as nat;
                    assert forall|x: nat| !is_inverse(residue, x, modulus) by {
                        if x < 1 {
                            assert(residue * x == 0);
                        }
                    }
                } else {
                    assert(common_divisor(r0 as nat, r0 as nat, r1 as nat)) by {
                        lemma_mod_self_0(r0 as int);
                    }
                    lemma_common_factor_excludes_inverse(a as nat, P as nat, r0 as nat);
                }
            }
            None
        }
    }

    /// The element raised to the power `exponent`; the power 0 gives 1.
    pub fn powu(self, exponent: u64) -> (power: Self)
        ensures
            power@ == pow_mod(self@, exponent as nat, P as nat),
    {
        proof {
            use_type_invariant(self);
        }
        let mut result: u64 = 1 % P;
        let mut base: u64 = self.value;
        let mut e: u64 = exponent;
        proof {
            lemma_mul_mod_noop_left(1, pow(base as int, e as nat), P as int);
        }
        while e > 0
            invariant
                0 < P,
                result < P,
                base < P,
                (result * pow(base as int, e as nat)) % (P as int) == pow(
                    self.value as int,
                    exponent as nat,
                ) % (P as int),
            decreases e,
        {
            let odd: bool = e % 2 == 1;
            proof {
                lemma_product_fits(result, base);
                lemma_product_fits(base, base);
            }
            let next: u64 = if odd {
                ((result as u128 * base as u128) % (P as u128)) as u64
            } else {
                result
            };
            let square: u64 = ((base as u128 * base as u128) % (P as u128)) as u64;
            proof {
                lemma_power_step(
                    P as int,
                    result as int,
                    base as int,
                    e as nat,
                    next as int,
                    square as int,
                );
            }
            result = next;
            base = square;
            e = e / 2;
        }
        proof {
            lemma_pow0(base as int);
            lemma_small_mod(result as nat, P as nat);
        }
        FieldElement { value: result }
    }
}

/// `d` divides both `x` and `y`.
pub open spec fn common_divisor(d: nat, x: nat, y: nat) -> bool {
    d > 0 && x % d == 0 && y % d == 0
}

/// Two elements with the same representative are the same element.
pub proof fn lemma_same_residue<const P: u64>(a: FieldElement<P>, b: FieldElement<P>)
    requires
        a@ == b@,
    ensures
        a == b,
{
}

/// Zero has no inverse, whatever the modulus: a division by zero gives no
/// value.
pub proof fn law_zero_has_no_inverse(p: nat)
    requires
        p > 0,
    ensures
        !invertible(0, p),
{
    assert forall|x: nat| !is_inverse(0, x, p) by {
        assert(0 * x == 0);
        lemma_small_mod(0, p);
    }
}

/// A residue has at most one inverse.
pub proof fn lemma_inverse_unique(a: nat, x: nat, y: nat, p: nat)
    requires
        is_inverse(a, x, p),
        is_inverse(a, y, p),
    ensures
        x == y,
{
    let (a0, x0, y0, p0) = (a as int, x as int, y as int, p as int);
    assert(x0 * (a0 * y0) == (a0 * x0) * y0) by (nonlinear_arith);
    lemma_mul_mod_noop_right(x0, a0 * y0, p0);
    lemma_mul_mod_noop_left(a0 * x0, y0, p0);
    assert(x0 * 1 == x0 && 1 * y0 == y0);
    lemma_small_mod(x, p);
    lemma_small_mod(y, p);
}

/// A divisor of `x` and `y` divides `q * x + y`.
proof fn lemma_divides_combination(d: nat, q: nat, x: nat, y: nat)
    requires
        common_divisor(d, x, y),
    ensures
        (q * x + y) % d == 0,
{
    let (d0, q0, x0, y0) = (d as int, q as int, x as int, y as int);
    lemma_mul_mod_noop_right(q0, x0, d0);
    assert(q0 * 0 == 0);
    lemma_add_mod_noop(q0 * x0, y0, d0);
    lemma_small_mod(0, d);
}

/// Where `a` and `p` have a common factor above 1, `a` has no inverse.
proof fn lemma_common_factor_excludes_inverse(a: nat, p: nat, g: nat)
    requires
        g >= 2,
        p > 0,
        common_divisor(g, p, a),
    ensures
        !invertible(a, p),
{
    assert forall|x: nat| !is_inverse(a, x, p) by {
        if is_inverse(a, x, p) {
            let (a0, x0, p0, g0) = (a as int, x as int, p as int, g as int);
            let k = (a0 * x0) / p0;
            lemma_fundamental_div_mod(a0 * x0, p0);
            assert(a0 * x0 == p0 * k + 1);
            lemma_mul_mod_noop_left(a0, x0, g0);
            assert(0 * x0 == 0);
            assert((a0 * x0) % g0 == 0);
            lemma_mul_mod_noop_left(p0, k, g0);
            assert(0 * k == 0);
            assert((p0 * k) % g0 == 0);
            lemma_add_mod_noop(p0 * k, 1, g0);
            lemma_small_mod(1, g);
            assert(false);
        }
    }
}

/// One step of Euclid's algorithm keeps the factor that gives the remainder.
proof fn lemma_factor_step(
    a: int,
    p: int,
    q: int,
    r0: int,
    r1: int,
    r2: int,
    t0: int,
    t1: int,
    t2: int,
)
    requires
        p > 0,
        r0 == q * r1 + r2,
        (t0 * a) % p == r0 % p,
        (t1 * a) % p == r1 % p,
        t2 == (t0 + p - (q * t1) % p) % p,
    ensures
        (t2 * a) % p == r2 % p,
{
    let m = (q * t1) % p;
    // m * a is congruent to q * r1
    assert((m * a) % p == (q * r1) % p) by {
        lemma_mul_mod_noop_left(q * t1, a, p);
        assert((q * t1) * a == q * (t1 * a)) by (nonlinear_arith);
        lemma_mul_mod_noop_right(q, t1 * a, p);
        lemma_mul_mod_noop_right(q, r1, p);
    }
    assert((t2 * a) % p == ((t0 + p - m) * a) % p) by {
        lemma_mul_mod_noop_left(t0 + p - m, a, p);
    }
    assert((t0 + p - m) * a == p * a + (t0 * a - m * a)) by (nonlinear_arith);
    lemma_mod_multiples_vanish(a, t0 * a - m * a, p);
    lemma_sub_mod_noop(t0 * a, m * a, p);
    lemma_sub_mod_noop(r0, q * r1, p);
}

/// One step of exponentiation by squaring.
proof fn lemma_power_step(p: int, result: int, base: int, e: nat, next: int, square: int)
    requires
        p > 0,
        e > 0,
        next == if e % 2 == 1 {
            (result * base) % p
        } else {
            result
        },
        square == (base * base) % p,
    ensures
        (next * pow(square, e / 2)) % p == (result * pow(base, e)) % p,
{
    let k = e / 2;
    // pow(square, k) is congruent to pow(base, 2 * k)
    assert(pow(square, k) % p == pow(base, 2 * k) % p) by {
        lemma_pow_mod_noop(base * base, k, p);
        lemma_square_is_pow2(base);
        lemma_pow_multiplies(base, 2, k);
    }
    lemma_mul_mod_noop_right(next, pow(square, k), p);
    lemma_mul_mod_noop_right(next, pow(base, 2 * k), p);
    if e % 2 == 1 {
        assert(e == 2 * k + 1);
        lemma_pow_adds(base, 2 * k, 1);
        lemma_pow1(base);
        lemma_mul_mod_noop_left(result * base, pow(base, 2 * k), p);
        assert((result * base) * pow(base, 2 * k) == result * (pow(base, 2 * k) * base))
            by (nonlinear_arith);
    } else {
        assert(e == 2 * k);
    }
}

/// The product of two 64-bit numbers fits in 128 bits.
pub proof fn lemma_product_fits(a: u64, b: u64)
    ensures
        a * b <= u128::MAX,
{
    assert(a * b <= 0xffff_ffff_ffff_ffff * 0xffff_ffff_ffff_ffff) by (nonlinear_arith)
        requires
            0 <= a <= 0xffff_ffff_ffff_ffff,
            0 <= b <= 0xffff_ffff_ffff_ffff,
    ;
}

} // verus!
