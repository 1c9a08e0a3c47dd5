//! The prime field of witness values: the integers modulo `2^64 - 2^32 + 1`.

use crate::text::{decimal, decimal_text};
use vstd::arithmetic::div_mod::{
    lemma_add_mod_noop, lemma_fundamental_div_mod, lemma_mod_multiples_vanish,
    lemma_mul_mod_noop_general, lemma_small_mod,
};
use vstd::prelude::*;

verus! {

/// The number of elements of the field.
pub const MODULUS: u64 = 0xFFFF_FFFF_0000_0001;

/// The number of elements of the field, as a mathematical integer.
pub open spec fn modulus() -> int {
    0xFFFF_FFFF_0000_0001
}

/// `b` is the canonical multiplicative inverse of `a` modulo the field's size.
pub open spec fn is_inverse_of(a: int, b: int) -> bool {
    0 <= b < modulus() && (a * b) % modulus() == 1
}

/// `a` has a multiplicative inverse modulo the field's size.
pub open spec fn has_inverse(a: int) -> bool {
    exists|b: int| is_inverse_of(a, b)
}

/// `d` divides `x`.
pub open spec fn divides(d: int, x: int) -> bool {
    d > 0 && x % d == 0
}

/// An element of the field, kept as its least non-negative representative.
#[derive(Clone, Copy, Debug, PartialEq, Eq, Structural)]
pub struct FieldElement {
    value: u64,
}

impl View for FieldElement {
    type V = int;

    closed spec fn view(&self) -> int {
        self.value as int % modulus()
    }
}

/// The canonical inverse of `a`, where `a` has one.
pub open spec fn inverse_of(a: int) -> int {
    choose|b: int| is_inverse_of(a, b)
}

/// The quotient of `a` by `b` in the field, where `b` has an inverse.
pub open spec fn quotient_of(a: int, b: int) -> int {
    (a * inverse_of(b)) % modulus()
}

/// The view of a field element is its least non-negative representative.
pub proof fn lemma_view_range(x: FieldElement)
    ensures
        0 <= x@ < modulus(),
{
}

/// Whether `p` has no divisor between one and itself.
pub open spec fn is_prime(p: int) -> bool {
    p > 1 && forall|d: int| 1 < d < p ==> #[trigger] (p % d) != 0
}

/// A common divisor of `x` and `y` that is a sum of multiples of the two:
/// the divisor, and the two factors.
proof fn lemma_bezout(x: nat, y: nat) -> (r: (int, int, int))
    requires
        x > 0 || y > 0,
    ensures
        r.0 > 0,
        divides(r.0, x as int),
        divides(r.0, y as int),
        r.0 == r.1 * x + r.2 * y,
    decreases y,
{
    if y == 0 {
        lemma_mod_multiples_vanish(1, 0, x as int);
        (x as int, 1, 0)
    } else {
        let rest = x % y;
        let q = (x / y) as int;
        lemma_fundamental_div_mod(x as int, y as int);
        let (g, u, v) = lemma_bezout(y, rest);
        lemma_fundamental_div_mod(y as int, g);
        lemma_fundamental_div_mod(rest as int, g);
        let a = (y as int) / g;
        let b = (rest as int) / g;
        assert(x == g * (a * q + b)) by (nonlinear_arith)
            requires
                y == g * a,
                rest == g * b,
                x == y * q + rest,
        ;
        lemma_mod_multiples_vanish(a * q + b, 0, g);
        assert(g * (a * q + b) == g * (a * q + b) + 0);
        assert(g == v * x + (u - v * q) * y) by (nonlinear_arith)
            requires
                g == u * y + v * rest,
                x == y * q + rest,
        ;
        (g, v, u - v * q)
    }
}

/// If the field's size is a prime, every element but zero has an inverse.
/// That the size is a prime is not proved here.
pub proof fn lemma_inverses_in_prime_field(a: int)
    requires
        is_prime(modulus()),
        a % modulus() != 0,
    ensures
        has_inverse(a),
{
    let p = modulus();
    let reduced = a % p;
    let (g, u, v) = lemma_bezout(reduced as nat, p as nat);
    // g divides p and is smaller than p, so it is one
    if g > 1 {
        lemma_fundamental_div_mod(reduced, g);
        let k = reduced / g;
        assert(k >= 1 && g <= reduced) by (nonlinear_arith)
            requires
                reduced == g * k,
                reduced > 0,
                g > 1,
        ;
        assert(p % g != 0);
    }
    assert(g == 1);
    // a * u = 1 - v * p, so u is an inverse of a
    let b = u % p;
    lemma_mul_mod_noop_general(a, u, p);
    assert((a * b) % p == ((a % p) * u) % p);
    assert(reduced * u == p * (-v) + 1) by (nonlinear_arith)
        requires
            1 == u * reduced + v * p,
    ;
    lemma_mod_multiples_vanish(-v, 1, p);
    assert(is_inverse_of(a, b));
}

/// Whether `a` and `b` stand for the same element of the field.
pub open spec fn congruent(a: int, b: int) -> bool {
    a % modulus() == b % modulus()
}

/// A number stands for the same element as its remainder.
pub proof fn lemma_congruent_remainder(a: int)
    ensures
        congruent(a % modulus(), a),
{
    vstd::arithmetic::div_mod::lemma_mod_twice(a, modulus());
}

/// Sums of numbers that stand for the same elements stand for the same element.
pub proof fn lemma_congruent_sum(a: int, a2: int, b: int, b2: int)
    requires
        congruent(a, a2),
        congruent(b, b2),
    ensures
        congruent(a + b, a2 + b2),
{
    lemma_add_mod_noop(a, b, modulus());
    lemma_add_mod_noop(a2, b2, modulus());
}

/// Products of numbers that stand for the same elements stand for the same element.
pub proof fn lemma_congruent_product(a: int, a2: int, b: int, b2: int)
    requires
        congruent(a, a2),
        congruent(b, b2),
    ensures
        congruent(a * b, a2 * b2),
{
    lemma_mul_mod_noop_general(a, b, modulus());
    lemma_mul_mod_noop_general(a2, b2, modulus());
}

/// A number has at most one canonical inverse.
pub proof fn lemma_inverse_unique(a: int, b1: int, b2: int)
    requires
        is_inverse_of(a, b1),
        is_inverse_of(a, b2),
    ensures
        b1 == b2,
{
    let p = modulus();
    // b1 = b1 * (a * b2) = (b1 * a) * b2 = b2, all modulo p
    lemma_mul_mod_noop_general(b1, a * b2, p);
    assert((b1 * (a * b2)) % p == (b1 * 1) % p);
    lemma_mul_mod_noop_general(a * b1, b2, p);
    assert(((a * b1) * b2) % p == (1 * b2) % p);
    assert(b1 * (a * b2) == (a * b1) * b2) by (nonlinear_arith);
    lemma_small_mod(b1 as nat, p as nat);
    lemma_small_mod(b2 as nat, p as nat);
}

/// The quotient of `-k` by `c` solves `c * w + k = 0` in the field, and nothing else does.
pub proof fn lemma_quotient_solves(c: int, k: int, w: int)
    requires
        has_inverse(c),
        0 <= w < modulus(),
    ensures
        (c * w + k) % modulus() == 0 <==> w == quotient_of(-k, c),
{
    let p = modulus();
    let inv = inverse_of(c);
    assert(is_inverse_of(c, inv));
    let q = quotient_of(-k, c);
    // c * q + k = 0 modulo p
    lemma_mul_mod_noop_general(c, (-k) * inv, p);
    assert((c * q) % p == (c * ((-k) * inv)) % p);
    assert(c * ((-k) * inv) == (-k) * (c * inv)) by (nonlinear_arith);
    lemma_mul_mod_noop_general(-k, c * inv, p);
    assert(((-k) * (c * inv)) % p == ((-k) * 1) % p);
    lemma_add_mod_noop(c * q, k, p);
    lemma_add_mod_noop(-k, k, p);
    assert((c * q + k) % p == 0);
    if (c * w + k) % p == 0 {
        // w = inv * (c * w) = inv * (-k) modulo p
        lemma_add_mod_noop(c * w, k, p);
        lemma_add_mod_noop(c * q, k, p);
        let x = (c * w) % p;
        let y = (c * q) % p;
        assert((x + k % p) % p == 0);
        assert((y + k % p) % p == 0);
        assert(x == y);
        lemma_mul_mod_noop_general(inv, c * w, p);
        lemma_mul_mod_noop_general(inv, c * q, p);
        assert((inv * (c * w)) % p == (inv * (c * q)) % p);
        assert(inv * (c * w) == (c * inv) * w) by (nonlinear_arith);
        assert(inv * (c * q) == (c * inv) * q) by (nonlinear_arith);
        lemma_mul_mod_noop_general(c * inv, w, p);
        lemma_mul_mod_noop_general(c * inv, q, p);
        assert(((c * inv) * w) % p == (1 * w) % p);
        assert(((c * inv) * q) % p == (1 * q) % p);
        lemma_small_mod(w as nat, p as nat);
        lemma_small_mod(q as nat, p as nat);
    }
}

/// A number that shares a divisor greater than one with the field's size has no inverse.
pub proof fn lemma_common_divisor_excludes_inverse(a: int, g: int)
    requires
        g > 1,
        divides(g, a),
        divides(g, modulus()),
    ensures
        !has_inverse(a),
{
    if has_inverse(a) {
        let b = choose|b: int| is_inverse_of(a, b);
        let p = modulus();
        let k = (a * b) / p;
        lemma_fundamental_div_mod(a * b, p);
        assert(a * b == p * k + 1);
        lemma_fundamental_div_mod(a, g);
        lemma_fundamental_div_mod(p, g);
        let a_part = a / g;
        let p_part = p / g;
        assert(a == g * a_part);
        assert(p == g * p_part);
        assert(g * (a_part * b - p_part * k) == 1) by (nonlinear_arith)
            requires
                a == g * a_part,
                p == g * p_part,
                a * b == p * k + 1,
        ;
        let m = a_part * b - p_part * k;
        assert(false) by (nonlinear_arith)
            requires
                g > 1,
                g * m == 1,
        ;
    }
}

impl FieldElement {
    #[verifier::type_invariant]
    spec fn is_canonical(self) -> bool {
        self.value < MODULUS
    }

    /// The element that `value` stands for: `value` reduced modulo the field's size.
    pub fn new(value: u64) -> (r: Self)
        ensures
            r@ == value as int % modulus(),
    {
        FieldElement { value: value % MODULUS }
    }

    /// The additive identity.
    pub fn zero() -> (r: Self)
        ensures
            r@ == 0,
    {
        FieldElement { value: 0 }
    }

    /// The multiplicative identity.
    pub fn one() -> (r: Self)
        ensures
            r@ == 1,
    {
        FieldElement { value: 1 }
    }

    /// The least non-negative representative.
    pub fn value(&self) -> (r: u64)
        ensures
            r as int == self@,
            r < MODULUS,
    {
        proof {
            use_type_invariant(self);
        }
        self.value
    }

    /// Whether this is the additive identity.
    pub fn is_zero(&self) -> (r: bool)
        ensures
            r == (self@ == 0),
    {
        proof {
            use_type_invariant(self);
        }
        self.value == 0
    }

    /// Whether this is the multiplicative identity.
    pub fn is_one(&self) -> (r: bool)
        ensures
            r == (self@ == 1),
    {
        proof {
            use_type_invariant(self);
        }
        self.value == 1
    }

    /// Whether the two stand for the same element.
    pub fn equals(&self, other: &FieldElement) -> (r: bool)
        ensures
            r == (self@ == other@),
    {
        proof {
            use_type_invariant(self);
            use_type_invariant(other);
        }
        self.value == other.value
    }

    /// The sum in the field.
    pub fn add(self, other: Self) -> (r: Self)
        ensures
            r@ == (self@ + other@) % modulus(),
    {
        proof {
            use_type_invariant(&self);
            use_type_invariant(&other);
        }
        let sum: u128 = self.value as u128 + other.value as u128;
        let reduced: u128 = if sum >= MODULUS as u128 {
            sum - MODULUS as u128
        } else {
            sum
        };
        FieldElement { value: reduced as u64 }
    }

    /// The additive inverse.
    pub fn neg(self) -> (r: Self)
        ensures
            r@ == (-self@) % modulus(),
    {
        proof {
            use_type_invariant(&self);
        }
        if self.value == 0 {
            self
        } else {
            FieldElement { value: MODULUS - self.value }
        }
    }

    /// The difference in the field.
    pub fn sub(self, other: Self) -> (r: Self)
        ensures
            r@ == (self@ - other@) % modulus(),
    {
        proof {
            use_type_invariant(&self);
            use_type_invariant(&other);
        }
        if self.value >= other.value {
            FieldElement { value: self.value - other.value }
        } else {
            FieldElement { value: MODULUS - (other.value - self.value) }
        }
    }

    /// The product in the field.
    pub fn mul(self, other: Self) -> (r: Self)
        ensures
            r@ == (self@ * other@) % modulus(),
    {
        proof {
            use_type_invariant(&self);
            use_type_invariant(&other);
            assert(self.value * other.value <= 0xFFFF_FFFF_FFFF_FFFF * 0xFFFF_FFFF_FFFF_FFFF)
                by (nonlinear_arith)
                requires
                    self.value <= 0xFFFF_FFFF_FFFF_FFFF,
                    other.value <= 0xFFFF_FFFF_FFFF_FFFF,
            ;
        }
        let product: u128 = self.value as u128 * other.value as u128;
        let reduced: u128 = product % (MODULUS as u128);
        FieldElement { value: reduced as u64 }
    }

    /// The multiplicative inverse, where there is one.
    pub fn inverse(self) -> (r: Option<Self>)
        ensures
            r matches Some(b) ==> is_inverse_of(self@, b@) && b@ == inverse_of(self@),
            r is Some <==> has_inverse(self@),
    {
        proof {
            use_type_invariant(&self);
        }
        let a: u64 = self.value;
        let mut upper: u64 = MODULUS;
        let mut lower: u64 = a;
        let mut upper_t = FieldElement::zero();
        let mut lower_t = FieldElement::one();
        let ghost mut upper_k: int = -1;
        let ghost mut lower_k: int = 0;
        while lower != 0
            invariant
                a == self@,
                a < MODULUS,
                0 < upper <= MODULUS,
                lower <= MODULUS,
                0 <= upper_t@ < modulus(),
                0 <= lower_t@ < modulus(),
                upper_t@ * a == upper + upper_k * modulus(),
                lower_t@ * a == lower + lower_k * modulus(),
                forall|d: int| #[trigger]
                    divides(d, upper as int) && divides(d, lower as int) ==> divides(
                        d,
                        modulus(),
                    ) && divides(d, a as int),
            decreases lower,
        {
            let q: u64 = upper / lower;
            let rest: u64 = upper % lower;
            let q_f = FieldElement::new(q);
            let q_t = q_f.mul(lower_t);
            let rest_t = upper_t.sub(q_t);
            proof {
                let p = modulus();
                lemma_fundamental_div_mod(upper as int, lower as int);
                assert(rest == upper - lower * q);
                lemma_fundamental_div_mod(q as int, p);
                lemma_fundamental_div_mod(q_f@ * lower_t@, p);
                lemma_fundamental_div_mod(upper_t@ - q_t@, p);
                let m3 = (q as int) / p;
                let m2 = (q_f@ * lower_t@) / p;
                let m1 = (upper_t@ - q_t@) / p;
                let ut = upper_t@;
                let lt = lower_t@;
                let qf = q_f@;
                let qt = q_t@;
                let rt = rest_t@;
                let ai = a as int;
                let qi = q as int;
                let li = lower as int;
                let ui = upper as int;
                let uk = upper_k;
                let lk = lower_k;
                assert(qf == qi - p * m3);
                assert(qt == qf * lt - p * m2);
                assert(rt == ut - qt - p * m1);
                let w = li + lk * p;
                let x1 = qi * lk;
                let x2 = m3 * w;
                let x3 = m2 * ai;
                let x4 = m1 * ai;
                let y = li * qi;
                let b = qf * lt * ai;
                let rest_k = uk - x1 + x2 + x3 - x4;
                assert(b == (qi - p * m3) * w) by (nonlinear_arith)
                    requires
                        b == qf * lt * ai,
                        qf == qi - p * m3,
                        lt * ai == w,
                ;
                assert(b == y + x1 * p - x2 * p) by (nonlinear_arith)
                    requires
                        b == (qi - p * m3) * w,
                        w == li + lk * p,
                        x1 == qi * lk,
                        x2 == m3 * w,
                        y == li * qi,
                ;
                assert(rt * ai == ut * ai - b + x3 * p - x4 * p) by (nonlinear_arith)
                    requires
                        rt == ut - qt - p * m1,
                        qt == qf * lt - p * m2,
                        b == qf * lt * ai,
                        x3 == m2 * ai,
                        x4 == m1 * ai,
                ;
                assert(rt * ai == (ui - y) + rest_k * p);
                assert forall|d: int| #[trigger]
                    divides(d, lower as int) && divides(d, rest as int) implies divides(
                    d,
                    modulus(),
                ) && divides(d, a as int) by {
                    lemma_fundamental_div_mod(li, d);
                    lemma_fundamental_div_mod(rest as int, d);
                    let x = li / d;
                    let y = (rest as int) / d;
                    assert(ui == d * (x * qi + y)) by (nonlinear_arith)
                        requires
                            li == d * x,
                            rest as int == d * y,
                            rest as int == ui - li * qi,
                    ;
                    lemma_mod_multiples_vanish(x * qi + y, 0, d);
                    assert(d * (x * qi + y) == d * (x * qi + y) + 0);
                    assert(divides(d, upper as int));
                }
                upper_k = lower_k;
                lower_k = rest_k;
            }
            upper = lower;
            lower = rest;
            upper_t = lower_t;
            lower_t = rest_t;
        }
        if upper == 1 {
            proof {
                let p = modulus();
                assert(a as int * upper_t@ == upper_t@ * a) by (nonlinear_arith);
                lemma_mod_multiples_vanish(upper_k, 1, p);
                assert(p * upper_k + 1 == a as int * upper_t@) by (nonlinear_arith)
                    requires
                        upper_t@ * a == 1 + upper_k * p,
                        a as int * upper_t@ == upper_t@ * a,
                ;
                assert(is_inverse_of(self@, upper_t@));
                lemma_inverse_unique(self@, upper_t@, inverse_of(self@));
            }
            Some(upper_t)
        } else {
            proof {
                assert(divides(upper as int, upper as int)) by {
                    lemma_mod_multiples_vanish(1, 0, upper as int);
                }
                assert(divides(upper as int, lower as int));
                lemma_common_divisor_excludes_inverse(a as int, upper as int);
            }
            None
        }
    }

    /// The quotient in the field, where the divisor has an inverse.
    pub fn div(self, divisor: Self) -> (r: Option<Self>)
        ensures
            r is Some <==> has_inverse(divisor@),
            r matches Some(q) ==> q@ == quotient_of(self@, divisor@),
    {
        match divisor.inverse() {
            Some(inv) => Some(self.mul(inv)),
            None => None,
        }
    }

    /// The decimal notation of the least non-negative representative.
    pub fn to_string(&self) -> (r: String)
        ensures
            r@ == decimal_text(self@ as nat),
    {
        proof {
            use_type_invariant(self);
        }
        decimal(self.value)
    }
}

} // verus!
