//! The prime-field engine: Montgomery-form elements over an odd prime
//! modulus that fits one 64-bit limb, with the parameter set that fixes a
//! concrete field. An element stores `value * R mod p` where `R = 2^64 mod p`;
//! the abstract value of an element is recovered in specifications through
//! the stored inverse of `R`.

use vstd::prelude::*;
use vstd::arithmetic::div_mod::*;
use vstd::arithmetic::mul::*;
use crate::arith::{
    radix, fadd, fsub, fmul, fneg, pow_mod, lemma_f_bound, lemma_f_small,
    lemma_fadd_mods, lemma_fsub_mods, lemma_cong_scale,
};

verus! {

/// `2^s`, by repeated doubling.
pub open spec fn two_pow(s: nat) -> int
    decreases s,
{
    if s == 0 {
        1
    } else {
        2 * two_pow((s - 1) as nat)
    }
}

/// Doubling never reaches zero.
pub proof fn lemma_two_pow_pos(s: nat)
    ensures
        two_pow(s) >= 1,
    decreases s,
{
    if s > 0 {
        lemma_two_pow_pos((s - 1) as nat);
    }
}

/// Doubling is monotone in the exponent.
pub proof fn lemma_two_pow_mono(s1: nat, s2: nat)
    requires
        s1 <= s2,
    ensures
        two_pow(s1) <= two_pow(s2),
    decreases s2,
{
    if s2 > s1 {
        lemma_two_pow_mono(s1, (s2 - 1) as nat);
        lemma_two_pow_pos((s2 - 1) as nat);
    }
}

/// Powers of two add exponents.
pub proof fn lemma_two_pow_adds(a: nat, b: nat)
    ensures
        two_pow(a + b) == two_pow(a) * two_pow(b),
    decreases a,
{
    if a == 0 {
        assert(1 * two_pow(b) == two_pow(b)) by (nonlinear_arith);
    } else {
        lemma_two_pow_adds((a - 1) as nat, b);
        assert(two_pow(a + b) == 2 * (two_pow((a - 1) as nat) * two_pow(b)));
        assert(2 * (two_pow((a - 1) as nat) * two_pow(b)) == (2 * two_pow((a - 1) as nat))
            * two_pow(b)) by (nonlinear_arith);
    }
}

/// The sixty-fourth power of two, which is the limb radix.
pub proof fn lemma_two_pow_64()
    ensures
        two_pow(64) == 0x1_0000_0000_0000_0000,
{
    reveal_with_fuel(two_pow, 65);
}

/// A prime has no divisor between 2 and itself.
pub open spec fn is_prime(p: int) -> bool {
    p > 1 && forall|d: int| 2 <= d < p ==> #[trigger] (p % d) != 0
}

/// The compile-time data of one concrete prime field: the modulus, the
/// Montgomery constants, the generator data the square-root routine uses,
/// and the bit counts byte decoding relies on.
pub struct FpParams {
    /// The prime modulus `p`.
    pub modulus: u64,
    /// `R = 2^64 mod p`, the Montgomery radix residue; also the representative of one.
    pub r: u64,
    /// `R^2 mod p`, the factor that carries a raw integer into Montgomery form.
    pub r2: u64,
    /// `-p^{-1} mod 2^64`, the folding constant of Montgomery reduction.
    pub inv: u64,
    /// `R^{-1} mod p`, the ghost exit constant the specifications divide by.
    pub r_inv: u64,
    /// A multiplicative generator of the field, in Montgomery form.
    pub generator: u64,
    /// `generator^trace`, a `2^two_adicity`-th root of unity, in Montgomery form.
    pub root_of_unity: u64,
    /// `s` with `p - 1 = trace * 2^s` and `trace` odd.
    pub two_adicity: u64,
    /// The odd factor `t` of `p - 1`.
    pub trace: u64,
    /// `(p - 1) / 2`, the Legendre exponent.
    pub modulus_minus_one_div_two: u64,
    /// How many high bits of a 64-bit encoding exceed the modulus bit length.
    pub repr_shave_bits: u64,
}

impl FpParams {
    /// What the modular arithmetic itself needs of a parameter set: the
    /// prime modulus in range, the Montgomery constants tied to their
    /// defining equations, and the two-adic shape of `p - 1`.
    pub open spec fn wf_arith(self) -> bool {
        let p = self.modulus as int;
        &&& 2 < p < 0x8000_0000_0000_0000
        &&& p % 2 == 1
        &&& is_prime(p)
        &&& self.r == radix() % p
        &&& self.r2 == (self.r * self.r) % p
        &&& (p * self.inv) % radix() == radix() - 1
        &&& (self.r * self.r_inv) % p == 1
        &&& self.r_inv < p
        &&& 0 < self.generator < p
        &&& self.root_of_unity < p
        &&& self.modulus_minus_one_div_two == (p - 1) / 2
        &&& self.trace % 2 == 1
        &&& 1 <= self.two_adicity < 64
        &&& p - 1 == self.trace * two_pow(self.two_adicity as nat)
        &&& 1 <= self.repr_shave_bits < 64
        &&& p < two_pow((64 - self.repr_shave_bits) as nat)
    }

    /// Everything the proofs need of a parameter set: the arithmetic
    /// clauses, and the generator data of the square-root descent — the
    /// root of unity is nonzero, equals the generator raised to the odd
    /// factor of `p - 1`, and reaches minus one after `s - 1` squarings,
    /// which witnesses its exact two-power order.
    pub open spec fn wf(self) -> bool {
        let p = self.modulus as int;
        &&& self.wf_arith()
        &&& 0 < self.root_of_unity
        &&& (self.root_of_unity * self.r_inv) % p == pow_mod(
            p,
            (self.generator * self.r_inv) % p,
            self.trace as nat,
        )
        &&& pow_mod(
            p,
            (self.root_of_unity * self.r_inv) % p,
            two_pow((self.two_adicity - 1) as nat) as nat,
        ) == p - 1
    }
}

/// One element of the prime field, stored as its Montgomery representative.
#[derive(Clone, Copy, PartialEq, Eq, Structural, Debug, Hash)]
pub struct Fp {
    /// The canonical representative, `value * R mod p`; always below the modulus.
    pub repr: u64,
}

impl Fp {
    /// The representation invariant: the stored limb is reduced.
    pub open spec fn inv_holds(self, pp: FpParams) -> bool {
        self.repr < pp.modulus
    }

    /// The represented integer: the stored limb with the Montgomery factor removed.
    pub open spec fn abs(self, pp: FpParams) -> int {
        (self.repr * pp.r_inv) % (pp.modulus as int)
    }

    /// Wrap a raw Montgomery representative without interpretation.
    pub fn new(repr: u64) -> (r: Fp)
        ensures
            r.repr == repr,
    {
        Fp { repr }
    }

    /// Whether the stored representative is in canonical range.
    pub fn is_valid(&self, pp: &FpParams) -> (r: bool)
        ensures
            r == self.inv_holds(*pp),
    {
        self.repr < pp.modulus
    }

    /// The additive identity.
    pub fn zero() -> (r: Fp)
        ensures
            r.repr == 0,
    {
        Fp { repr: 0 }
    }

    /// The multiplicative identity, whose representative is `R mod p`.
    pub fn one(pp: &FpParams) -> (r: Fp)
        requires
            pp.wf_arith(),
        ensures
            r.repr == pp.r,
            r.inv_holds(*pp),
            r.abs(*pp) == 1,
    {
        proof {
            lemma_f_bound(pp.modulus as int, radix());
        }
        Fp { repr: pp.r }
    }

    /// An element is zero exactly when its representative is zero.
    pub fn is_zero(&self, pp: &FpParams) -> (r: bool)
        requires
            pp.wf_arith(),
            self.inv_holds(*pp),
        ensures
            r == (self.abs(*pp) == 0),
    {
        proof {
            lemma_abs_zero(*pp, *self);
        }
        self.repr == 0
    }

    /// An element is one exactly when its representative is `R mod p`.
    pub fn is_one(&self, pp: &FpParams) -> (r: bool)
        requires
            pp.wf_arith(),
            self.inv_holds(*pp),
        ensures
            r == (self.abs(*pp) == 1),
    {
        proof {
            lemma_abs_one(*pp, *self);
        }
        self.repr == pp.r
    }

    /// Field addition: limb addition followed by one conditional reduction.
    pub fn add(&self, other: &Fp, pp: &FpParams) -> (r: Fp)
        requires
            pp.wf_arith(),
            self.inv_holds(*pp),
            other.inv_holds(*pp),
        ensures
            r.inv_holds(*pp),
            r.abs(*pp) == fadd(pp.modulus as int, self.abs(*pp), other.abs(*pp)),
    {
        let p = pp.modulus;
        let s = self.repr + other.repr;
        let reduced = if s >= p {
            s - p
        } else {
            s
        };
        proof {
            lemma_sum_congruent_abs(*pp, *self, *other, reduced);
        }
        Fp { repr: reduced }
    }

    /// Field subtraction: when the subtrahend is larger, the modulus is added first.
    pub fn sub(&self, other: &Fp, pp: &FpParams) -> (r: Fp)
        requires
            pp.wf_arith(),
            self.inv_holds(*pp),
            other.inv_holds(*pp),
        ensures
            r.inv_holds(*pp),
            r.abs(*pp) == fsub(pp.modulus as int, self.abs(*pp), other.abs(*pp)),
    {
        let p = pp.modulus;
        let d = if other.repr > self.repr {
            self.repr + p - other.repr
        } else {
            self.repr - other.repr
        };
        proof {
            lemma_diff_congruent_abs(*pp, *self, *other, d);
        }
        Fp { repr: d }
    }

    /// Doubling: one shift of the representative, then one reduction.
    pub fn double(&self, pp: &FpParams) -> (r: Fp)
        requires
            pp.wf_arith(),
            self.inv_holds(*pp),
        ensures
            r.inv_holds(*pp),
            r.abs(*pp) == fadd(pp.modulus as int, self.abs(*pp), self.abs(*pp)),
    {
        self.add(self, pp)
    }

    /// Doubling in place.
    pub fn double_in_place(&mut self, pp: &FpParams)
        requires
            pp.wf_arith(),
            old(self).inv_holds(*pp),
        ensures
            final(self).inv_holds(*pp),
            final(self).abs(*pp) == fadd(pp.modulus as int, old(self).abs(*pp), old(self).abs(*pp)),
    {
        *self = self.double(pp);
    }

    /// Additive inverse: the complement to the modulus, with zero fixed.
    pub fn neg(&self, pp: &FpParams) -> (r: Fp)
        requires
            pp.wf_arith(),
            self.inv_holds(*pp),
        ensures
            r.inv_holds(*pp),
            r.abs(*pp) == fneg(pp.modulus as int, self.abs(*pp)),
    {
        let p = pp.modulus;
        if self.repr == 0 {
            proof {
                let pi = p as int;
                lemma_abs_zero(*pp, *self);
                lemma_small_mod(0nat, pi as nat);
            }
            *self
        } else {
            let d = p - self.repr;
            proof {
                let pi = p as int;
                let rinv = pp.r_inv as int;
                let a = self.repr as int;
                lemma_mod_multiples_vanish(rinv, (-a) * rinv, pi);
                assert(pi * rinv + (0 - a) * rinv == (pi - a) * rinv) by (nonlinear_arith);
                assert(((pi - a) * rinv) % pi == ((0 - a) * rinv) % pi);
                lemma_mul_mod_noop_left(0 - a, rinv, pi);
                lemma_mul_mod_noop_left(a, rinv, pi);
                assert((d as int * rinv) % pi == (((0 - a) % pi) * rinv) % pi);
                assert(fneg(pi, self.abs(*pp)) == ((a * rinv) % pi * (pi - 1)) % pi) by {
                    lemma_neg_is_scale(pi, (a * rinv) % pi);
                }
                lemma_neg_is_scale(pi, a * rinv);
                lemma_mul_mod_noop_left(a * rinv, pi - 1, pi);
                assert(((0 - a) % pi * rinv) % pi == ((0 - a) * rinv) % pi);
                assert((0 - a) * rinv == (0 - (a * rinv))) by (nonlinear_arith);
                assert(((pi - 1) * (a * rinv)) % pi == (0 - (a * rinv)) % pi) by {
                    lemma_neg_is_scale(pi, a * rinv);
                }
                assert((a * rinv) * (pi - 1) == (pi - 1) * (a * rinv)) by (nonlinear_arith);
            }
            Fp { repr: d }
        }
    }

    /// Montgomery multiplication: the double-width product is folded once by
    /// the negated modulus inverse, halving the Montgomery factor, and a final
    /// conditional subtraction restores the canonical range.
    pub fn mul(&self, other: &Fp, pp: &FpParams) -> (r: Fp)
        requires
            pp.wf_arith(),
            self.inv_holds(*pp),
            other.inv_holds(*pp),
        ensures
            r.inv_holds(*pp),
            r.abs(*pp) == fmul(pp.modulus as int, self.abs(*pp), other.abs(*pp)),
    {
        let raw = mont_mul(pp, self.repr, other.repr);
        proof {
            lemma_mont_mul_abs(*pp, raw, self.repr, other.repr);
        }
        Fp { repr: raw }
    }

    /// Squaring; at one limb there are no cross products to share, so this is
    /// the Montgomery product of the element with itself.
    pub fn square(&self, pp: &FpParams) -> (r: Fp)
        requires
            pp.wf_arith(),
            self.inv_holds(*pp),
        ensures
            r.inv_holds(*pp),
            r.abs(*pp) == fmul(pp.modulus as int, self.abs(*pp), self.abs(*pp)),
    {
        self.mul(self, pp)
    }

    /// Squaring in place.
    pub fn square_in_place(&mut self, pp: &FpParams)
        requires
            pp.wf_arith(),
            old(self).inv_holds(*pp),
        ensures
            final(self).inv_holds(*pp),
            final(self).abs(*pp) == fmul(pp.modulus as int, old(self).abs(*pp), old(self).abs(*pp)),
    {
        *self = self.square(pp);
    }

    /// Enter Montgomery form: a raw integer below the modulus is multiplied by
    /// `R^2`; an out-of-range integer is mapped to zero, the documented
    /// silent-zero policy of this entry point.
    pub fn from_repr(repr: u64, pp: &FpParams) -> (r: Fp)
        requires
            pp.wf_arith(),
        ensures
            r.inv_holds(*pp),
            repr < pp.modulus ==> r.abs(*pp) == repr,
            repr >= pp.modulus ==> r == (Fp { repr: 0 }),
    {
        if repr < pp.modulus {
            let raw = mont_mul(pp, repr, pp.r2);
            proof {
                lemma_mont_enter_abs(*pp, raw, repr);
            }
            Fp { repr: raw }
        } else {
            Fp { repr: 0 }
        }
    }

    /// Leave Montgomery form: reduction against one yields the represented
    /// integer itself.
    pub fn into_repr(&self, pp: &FpParams) -> (r: u64)
        requires
            pp.wf_arith(),
            self.inv_holds(*pp),
        ensures
            r == self.abs(*pp),
    {
        let raw = mont_mul(pp, self.repr, 1);
        proof {
            lemma_mont_exit_abs(*pp, raw, self.repr);
        }
        raw
    }

    /// Wrap a raw representative that is already reduced, without the
    /// Montgomery entry; out-of-range input collapses to zero as `from_repr`.
    pub fn from_repr_raw(repr: u64, pp: &FpParams) -> (r: Fp)
        requires
            pp.wf_arith(),
        ensures
            r.inv_holds(*pp),
            repr < pp.modulus ==> r.repr == repr,
            repr >= pp.modulus ==> r.repr == 0,
    {
        if repr < pp.modulus {
            Fp { repr }
        } else {
            Fp { repr: 0 }
        }
    }

    /// The raw Montgomery representative, uninterpreted.
    pub fn into_repr_raw(&self) -> (r: u64)
        ensures
            r == self.repr,
    {
        self.repr
    }

    /// The Frobenius endomorphism fixes every element of the prime field.
    pub fn frobenius_map(&mut self, power: usize)
        ensures
            *final(self) == *old(self),
    {
    }

    /// The configured multiplicative generator.
    pub fn multiplicative_generator(pp: &FpParams) -> (r: Fp)
        requires
            pp.wf_arith(),
        ensures
            r.inv_holds(*pp),
            r.repr == pp.generator,
    {
        Fp { repr: pp.generator }
    }

    /// The configured `2^s`-th root of unity.
    pub fn root_of_unity(pp: &FpParams) -> (r: Fp)
        requires
            pp.wf_arith(),
        ensures
            r.inv_holds(*pp),
            r.repr == pp.root_of_unity,
    {
        Fp { repr: pp.root_of_unity }
    }

    /// Whether the represented (non-Montgomery) integer is odd.
    pub fn is_odd(&self, pp: &FpParams) -> (r: bool)
        requires
            pp.wf_arith(),
            self.inv_holds(*pp),
        ensures
            r == (self.abs(*pp) % 2 == 1),
    {
        self.into_repr(pp) % 2 == 1
    }

    /// The characteristic of the field, as its little-endian limbs.
    pub fn characteristic(pp: &FpParams) -> (r: Vec<u64>)
        ensures
            r@.len() == 1,
            r@[0] == pp.modulus,
    {
        let mut v: Vec<u64> = Vec::new();
        v.push(pp.modulus);
        v
    }

    /// Division by an invertible element: the result is the unique element
    /// whose product with the divisor is the dividend. Dividing by zero is
    /// a caller error and is excluded outright.
    pub fn div(&self, other: &Fp, pp: &FpParams) -> (r: Fp)
        requires
            pp.wf_arith(),
            self.inv_holds(*pp),
            other.inv_holds(*pp),
            other.abs(*pp) != 0,
        ensures
            r.inv_holds(*pp),
            fmul(pp.modulus as int, r.abs(*pp), other.abs(*pp)) == self.abs(*pp),
    {
        let inv = match other.inverse(pp) {
            Some(inv) => inv,
            None => {
                proof {
                    assert(false);
                }
                Fp { repr: 0 }
            },
        };
        let r = self.mul(&inv, pp);
        proof {
            let p = pp.modulus as int;
            let a = self.abs(*pp);
            let b = other.abs(*pp);
            let bi = inv.abs(*pp);
            lemma_f_bound(p, self.repr * pp.r_inv);
            lemma_f_bound(p, other.repr * pp.r_inv);
            lemma_f_bound(p, inv.repr * pp.r_inv);
            crate::arith::lemma_fmul_assoc(p, a, bi, b);
            crate::arith::lemma_fmul_comm(p, bi, b);
            crate::arith::lemma_fmul_one(p, a);
        }
        r
    }

    /// Whether the represented integer is below another's: the canonical
    /// (non-Montgomery) ordering of field elements.
    pub fn lt(&self, other: &Fp, pp: &FpParams) -> (r: bool)
        requires
            pp.wf_arith(),
            self.inv_holds(*pp),
            other.inv_holds(*pp),
        ensures
            r == (self.abs(*pp) < other.abs(*pp)),
    {
        self.into_repr(pp) < other.into_repr(pp)
    }
}

/// The raw Montgomery product of two reduced limbs: a value `r < p` with
/// `r * 2^64 == a * b (mod p)`.
fn mont_mul(pp: &FpParams, a: u64, b: u64) -> (r: u64)
    requires
        pp.wf_arith(),
        a < pp.modulus,
        b < pp.modulus,
    ensures
        r < pp.modulus,
        (r * radix()) % (pp.modulus as int) == (a * b) % (pp.modulus as int),
{
    let p = pp.modulus;
    proof {
        assert(a as int * b as int <= 0xffff_ffff_ffff_ffff * 0xffff_ffff_ffff_ffff)
            by (nonlinear_arith)
            requires
                a <= 0xffff_ffff_ffff_ffffu64,
                b <= 0xffff_ffff_ffff_ffffu64,
        ;
    }
    let t: u128 = (a as u128) * (b as u128);
    let lo: u64 = (t % 0x1_0000_0000_0000_0000u128) as u64;
    proof {
        assert(lo as int * pp.inv as int <= 0xffff_ffff_ffff_ffff * 0xffff_ffff_ffff_ffff)
            by (nonlinear_arith)
            requires
                lo <= 0xffff_ffff_ffff_ffffu64,
                pp.inv <= 0xffff_ffff_ffff_ffffu64,
        ;
    }
    let m: u64 = (((lo as u128) * (pp.inv as u128)) % 0x1_0000_0000_0000_0000u128) as u64;
    proof {
        let pi = p as int;
        let rr = radix();
        assert(t as int <= (pi - 1) * (pi - 1)) by (nonlinear_arith)
            requires
                t == a as int * b as int,
                0 <= a as int <= pi - 1,
                0 <= b as int <= pi - 1,
        ;
        assert(m as int * pi <= (rr - 1) * pi) by (nonlinear_arith)
            requires
                0 <= m as int <= rr - 1,
                pi > 0,
        ;
        assert((pi - 1) * (pi - 1) + (rr - 1) * pi < rr * rr) by (nonlinear_arith)
            requires
                2 < pi,
                2 * pi < rr,
        ;
    }
    let folded: u128 = t + (m as u128) * (p as u128);
    let u: u64 = (folded / 0x1_0000_0000_0000_0000u128) as u64;
    proof {
        lemma_mont_fold(*pp, a as int, b as int, t as int, lo as int, m as int, folded as int);
        assert(u == folded as int / radix());
    }
    if u >= p {
        proof {
            let pi = p as int;
            lemma_mod_sub_multiples_vanish(u as int, pi);
            lemma_cong_scale(pi, u as int - pi, u as int, radix());
        }
        u - p
    } else {
        u
    }
}

/// The heart of Montgomery reduction: the folded sum is divisible by the
/// radix, its high half is below `2p`, and it is congruent to the product.
proof fn lemma_mont_fold(pp: FpParams, a: int, b: int, t: int, lo: int, m: int, folded: int)
    requires
        pp.wf_arith(),
        0 <= a < pp.modulus,
        0 <= b < pp.modulus,
        t == a * b,
        lo == t % radix(),
        m == (lo * pp.inv) % radix(),
        folded == t + m * (pp.modulus as int),
    ensures
        folded % radix() == 0,
        folded / radix() < 2 * (pp.modulus as int),
        ((folded / radix()) * radix()) % (pp.modulus as int) == (a * b) % (pp.modulus as int),
{
    let p = pp.modulus as int;
    let rr = radix();
    let inv = pp.inv as int;
    // m * p is congruent to -t modulo the radix.
    assert((m * p) % rr == (lo * (inv * p)) % rr) by {
        lemma_mul_mod_noop_left(lo * inv, p, rr);
        lemma_mul_is_associative(lo, inv, p);
    }
    assert((inv * p) % rr == rr - 1) by {
        lemma_mul_is_commutative(inv, p);
    }
    assert((lo * (inv * p)) % rr == (lo * (rr - 1)) % rr) by {
        lemma_mul_mod_noop_right(lo, inv * p, rr);
        lemma_f_bound(rr, inv * p);
        lemma_f_small(rr, rr - 1);
        lemma_mul_mod_noop_right(lo, rr - 1, rr);
    }
    assert(lo * (rr - 1) == rr * lo + (0 - lo)) by (nonlinear_arith);
    assert((lo * (rr - 1)) % rr == (0 - lo) % rr) by {
        lemma_mod_multiples_vanish(lo, 0 - lo, rr);
    }
    // the fold cancels the low half exactly
    assert(folded % rr == 0) by {
        lemma_fadd_mods(rr, t, m * p);
        assert(t % rr == lo);
        lemma_f_bound(rr, t);
        lemma_f_bound(rr, m * p);
        assert((t % rr + (m * p) % rr) % rr == (lo + (0 - lo) % rr) % rr);
        lemma_add_mod_noop_right(lo, 0 - lo, rr);
        lemma_mod_self_0(rr);
        lemma_small_mod(0nat, rr as nat);
    }
    // the high half is small
    lemma_fundamental_div_mod(folded, rr);
    let u = folded / rr;
    assert(folded == rr * u);
    assert(t <= (p - 1) * (p - 1)) by (nonlinear_arith)
        requires
            t == a * b,
            0 <= a <= p - 1,
            0 <= b <= p - 1,
    ;
    assert(m * p <= (rr - 1) * p) by (nonlinear_arith)
        requires
            0 <= m <= rr - 1,
            p > 0,
    ;
    assert((p - 1) * (p - 1) + (rr - 1) * p < rr * (2 * p)) by (nonlinear_arith)
        requires
            2 < p,
            2 * p < rr,
    ;
    assert(u < 2 * p) by (nonlinear_arith)
        requires
            rr * u == folded,
            folded < rr * (2 * p),
            rr > 0,
    ;
    // congruence with the product
    assert((u * rr) % p == (a * b) % p) by {
        assert(u * rr == t + p * m) by {
            lemma_mul_is_commutative(u, rr);
            lemma_mul_is_commutative(m, p);
        }
        lemma_mod_multiples_vanish(m, t, p);
    }
}

/// Carries a raw Montgomery congruence to the abstract values: if
/// `r * R == x * y (mod p)` then the value of `r` is the product of the
/// values of `x` and `y`.
proof fn lemma_mont_mul_abs(pp: FpParams, r: u64, x: u64, y: u64)
    requires
        pp.wf_arith(),
        r < pp.modulus,
        x < pp.modulus,
        y < pp.modulus,
        (r * radix()) % (pp.modulus as int) == (x * y) % (pp.modulus as int),
    ensures
        (Fp { repr: r }).abs(pp) == fmul(
            pp.modulus as int,
            (Fp { repr: x }).abs(pp),
            (Fp { repr: y }).abs(pp),
        ),
{
    let p = pp.modulus as int;
    let rr = radix();
    let rm = pp.r as int;
    let rinv = pp.r_inv as int;
    // the radix and its stored residue act alike as factors
    assert((r * rr) % p == (r * rm) % p) by {
        lemma_mul_mod_noop_right(r as int, rr, p);
        lemma_f_small(p, rm);
        lemma_mul_mod_noop_right(r as int, rm, p);
    }
    // scale the congruence by r_inv twice and absorb the unit pairs
    let xa = (x * rinv) % p;
    let ya = (y * rinv) % p;
    lemma_cong_scale(p, r as int * rm, x as int * y as int, rinv * rinv);
    assert((r * rm) * (rinv * rinv) == (r * rinv) * (rm * rinv)) by (nonlinear_arith);
    assert(((r * rinv) * (rm * rinv)) % p == (r * rinv) % p) by {
        lemma_mul_mod_noop_right(r as int * rinv, rm * rinv, p);
        lemma_f_small(p, 1);
        lemma_mul_mod_noop_right(r as int * rinv, 1, p);
    }
    assert((x * y) * (rinv * rinv) == (x * rinv) * (y * rinv)) by (nonlinear_arith);
    assert(((x * rinv) * (y * rinv)) % p == (xa * ya) % p) by {
        lemma_mul_mod_noop(x as int * rinv, y as int * rinv, p);
    }
    assert((r * rinv) % p == (xa * ya) % p);
}

/// Leaving Montgomery form: if `r * R == a (mod p)` with both reduced, `r`
/// is exactly the abstract value of the element whose representative is `a`.
proof fn lemma_mont_exit_abs(pp: FpParams, r: u64, a: u64)
    requires
        pp.wf_arith(),
        r < pp.modulus,
        a < pp.modulus,
        (r * radix()) % (pp.modulus as int) == (a * 1) % (pp.modulus as int),
    ensures
        r == (Fp { repr: a }).abs(pp),
{
    let p = pp.modulus as int;
    let rr = radix();
    let rm = pp.r as int;
    let rinv = pp.r_inv as int;
    assert((r * rr) % p == (r * rm) % p) by {
        lemma_mul_mod_noop_right(r as int, rr, p);
        lemma_f_small(p, rm);
        lemma_mul_mod_noop_right(r as int, rm, p);
    }
    lemma_cong_scale(p, r as int * rm, a as int * 1, rinv);
    assert((r * rm) * rinv == r * (rm * rinv)) by (nonlinear_arith);
    assert((r * (rm * rinv)) % p == r as int % p) by {
        lemma_mul_mod_noop_right(r as int, rm * rinv, p);
        lemma_f_small(p, 1);
        lemma_mul_mod_noop_right(r as int, 1, p);
    }
    lemma_f_small(p, r as int);
    assert((a * 1) * rinv == a * rinv) by (nonlinear_arith);
}

/// Entering Montgomery form: multiplying a reduced integer by `R^2` under
/// reduction produces the element whose abstract value is that integer.
proof fn lemma_mont_enter_abs(pp: FpParams, r: u64, x: u64)
    requires
        pp.wf_arith(),
        r < pp.modulus,
        x < pp.modulus,
        (r * radix()) % (pp.modulus as int) == (x * pp.r2) % (pp.modulus as int),
    ensures
        (Fp { repr: r }).abs(pp) == x,
{
    let p = pp.modulus as int;
    let rr = radix();
    let rm = pp.r as int;
    let rinv = pp.r_inv as int;
    assert((r * rr) % p == (r * rm) % p) by {
        lemma_mul_mod_noop_right(r as int, rr, p);
        lemma_f_small(p, rm);
        lemma_mul_mod_noop_right(r as int, rm, p);
    }
    // unfold r2 into two radix residues
    assert((x * pp.r2) % p == (x * (rm * rm)) % p) by {
        lemma_mul_mod_noop_right(x as int, rm * rm, p);
        lemma_f_bound(p, rm * rm);
        lemma_f_small(p, pp.r2 as int);
        lemma_mul_mod_noop_right(x as int, pp.r2 as int, p);
    }
    lemma_cong_scale(p, r as int * rm, x as int * (rm * rm), rinv * rinv);
    assert((r * rm) * (rinv * rinv) == (r * rinv) * (rm * rinv)) by (nonlinear_arith);
    assert(((r * rinv) * (rm * rinv)) % p == (r * rinv) % p) by {
        lemma_mul_mod_noop_right(r as int * rinv, rm * rinv, p);
        lemma_f_small(p, 1);
        lemma_mul_mod_noop_right(r as int * rinv, 1, p);
    }
    assert((x * (rm * rm)) * (rinv * rinv) == x * ((rm * rinv) * (rm * rinv))) by (nonlinear_arith);
    assert((x * ((rm * rinv) * (rm * rinv))) % p == x as int % p) by {
        assert(((rm * rinv) * (rm * rinv)) % p == 1) by {
            lemma_mul_mod_noop(rm * rinv, rm * rinv, p);
            lemma_f_small(p, 1);
        }
        lemma_mul_mod_noop_right(x as int, (rm * rinv) * (rm * rinv), p);
        lemma_f_small(p, 1);
        lemma_mul_mod_noop_right(x as int, 1, p);
    }
    lemma_f_small(p, x as int);
}

/// The representative is zero exactly when the abstract value is zero: the
/// exit constant is invertible, so it carries nothing else to zero.
proof fn lemma_abs_zero(pp: FpParams, e: Fp)
    requires
        pp.wf_arith(),
        e.inv_holds(pp),
    ensures
        (e.abs(pp) == 0) == (e.repr == 0),
{
    let p = pp.modulus as int;
    let rinv = pp.r_inv as int;
    let rm = pp.r as int;
    let a = e.repr as int;
    if a == 0 {
        assert(0 * rinv == 0) by (nonlinear_arith);
        lemma_small_mod(0nat, p as nat);
    } else {
        if e.abs(pp) == 0 {
            // multiply back by the radix residue: a itself would be zero
            lemma_cong_scale(p, a * rinv, 0, rm);
            assert((0 * rm) % p == 0) by {
                assert(0 * rm == 0) by (nonlinear_arith);
                lemma_small_mod(0nat, p as nat);
            }
            assert(((a * rinv) % p * rm) % p == (a * (rinv * rm)) % p) by {
                lemma_mul_mod_noop_left(a * rinv, rm, p);
                lemma_mul_is_associative(a, rinv, rm);
            }
            assert((a * (rinv * rm)) % p == a % p) by {
                lemma_mul_is_commutative(rinv, rm);
                lemma_mul_mod_noop_right(a, rm * rinv, p);
                lemma_f_small(p, 1);
                lemma_mul_mod_noop_right(a, 1, p);
            }
            lemma_f_small(p, a);
            assert(false);
        }
    }
}

/// The representative equals the stored radix residue exactly when the
/// abstract value is one.
proof fn lemma_abs_one(pp: FpParams, e: Fp)
    requires
        pp.wf_arith(),
        e.inv_holds(pp),
    ensures
        (e.abs(pp) == 1) == (e.repr == pp.r),
{
    let p = pp.modulus as int;
    let rinv = pp.r_inv as int;
    let rm = pp.r as int;
    let a = e.repr as int;
    if e.abs(pp) == 1 && a != rm {
        lemma_cong_scale(p, a * rinv, rm * rinv, rm);
        assert(((a * rinv) % p) == ((rm * rinv) % p));
        lemma_mul_mod_noop_left(a * rinv, rm, p);
        lemma_mul_mod_noop_left(rm * rinv, rm, p);
        assert((a * rinv) * rm == a * (rinv * rm)) by (nonlinear_arith);
        assert((rm * rinv) * rm == rm * (rinv * rm)) by (nonlinear_arith);
        assert((a * (rinv * rm)) % p == a % p) by {
            lemma_mul_is_commutative(rinv, rm);
            lemma_mul_mod_noop_right(a, rm * rinv, p);
            lemma_f_small(p, 1);
            lemma_mul_mod_noop_right(a, 1, p);
        }
        assert((rm * (rinv * rm)) % p == rm % p) by {
            lemma_mul_is_commutative(rinv, rm);
            lemma_mul_mod_noop_right(rm, rm * rinv, p);
            lemma_f_small(p, 1);
            lemma_mul_mod_noop_right(rm, 1, p);
        }
        lemma_f_small(p, a);
        lemma_f_small(p, rm);
        assert(false);
    }
    if a == rm {
        // by well-formedness the residue times the exit constant is one
    }
}

/// Two reduced elements with one abstract value are the same element: the
/// exit constant is invertible, so the abstraction loses nothing.
pub proof fn lemma_abs_injective(pp: FpParams, x: Fp, y: Fp)
    requires
        pp.wf_arith(),
        x.inv_holds(pp),
        y.inv_holds(pp),
        x.abs(pp) == y.abs(pp),
    ensures
        x == y,
{
    let p = pp.modulus as int;
    let rinv = pp.r_inv as int;
    let rm = pp.r as int;
    let a = x.repr as int;
    let b = y.repr as int;
    if a != b {
        lemma_cong_scale(p, a * rinv, b * rinv, rm);
        lemma_mul_mod_noop_left(a * rinv, rm, p);
        lemma_mul_mod_noop_left(b * rinv, rm, p);
        assert((a * rinv) * rm == a * (rinv * rm)) by (nonlinear_arith);
        assert((b * rinv) * rm == b * (rinv * rm)) by (nonlinear_arith);
        assert((a * (rinv * rm)) % p == a % p) by {
            lemma_mul_is_commutative(rinv, rm);
            lemma_mul_mod_noop_right(a, rm * rinv, p);
            lemma_f_small(p, 1);
            lemma_mul_mod_noop_right(a, 1, p);
        }
        assert((b * (rinv * rm)) % p == b % p) by {
            lemma_mul_is_commutative(rinv, rm);
            lemma_mul_mod_noop_right(b, rm * rinv, p);
            lemma_f_small(p, 1);
            lemma_mul_mod_noop_right(b, 1, p);
        }
        lemma_f_small(p, a);
        lemma_f_small(p, b);
        assert(false);
    }
}

/// Addition of representatives is addition of abstract values.
proof fn lemma_sum_congruent_abs(pp: FpParams, x: Fp, y: Fp, reduced: u64)
    requires
        pp.wf_arith(),
        x.inv_holds(pp),
        y.inv_holds(pp),
        reduced < pp.modulus,
        reduced == x.repr + y.repr || reduced + pp.modulus == x.repr + y.repr,
    ensures
        (Fp { repr: reduced }).abs(pp) == fadd(pp.modulus as int, x.abs(pp), y.abs(pp)),
{
    let p = pp.modulus as int;
    let rinv = pp.r_inv as int;
    let a = x.repr as int;
    let b = y.repr as int;
    let s = reduced as int;
    // the reduced sum is congruent to a + b
    assert(s % p == (a + b) % p) by {
        if s == a + b {
            lemma_f_small(p, s);
        } else {
            lemma_mod_add_multiples_vanish(s, p);
            lemma_f_small(p, s);
        }
    }
    lemma_cong_scale(p, s, a + b, rinv);
    assert((a + b) * rinv == a * rinv + b * rinv) by (nonlinear_arith);
    lemma_fadd_mods(p, a * rinv, b * rinv);
}

/// Subtraction of representatives is subtraction of abstract values.
proof fn lemma_diff_congruent_abs(pp: FpParams, x: Fp, y: Fp, reduced: u64)
    requires
        pp.wf_arith(),
        x.inv_holds(pp),
        y.inv_holds(pp),
        reduced < pp.modulus,
        reduced == x.repr - y.repr || reduced == x.repr + pp.modulus - y.repr,
    ensures
        (Fp { repr: reduced }).abs(pp) == fsub(pp.modulus as int, x.abs(pp), y.abs(pp)),
{
    let p = pp.modulus as int;
    let rinv = pp.r_inv as int;
    let a = x.repr as int;
    let b = y.repr as int;
    let s = reduced as int;
    assert(s % p == (a - b) % p) by {
        if s == a - b {
            lemma_f_small(p, s);
        } else {
            lemma_mod_add_multiples_vanish(a - b, p);
            lemma_f_small(p, s);
        }
    }
    lemma_cong_scale(p, s, a - b, rinv);
    assert((a - b) * rinv == a * rinv - b * rinv) by (nonlinear_arith);
    lemma_fsub_mods(p, a * rinv, b * rinv);
}

/// Negation is multiplication by `p - 1` under the modulus.
proof fn lemma_neg_is_scale(p: int, x: int)
    requires
        p > 1,
    ensures
        ((p - 1) * x) % p == (0 - x) % p,
{
    assert((p - 1) * x == p * x + (0 - x)) by (nonlinear_arith);
    lemma_mod_multiples_vanish(x, 0 - x, p);
}

} // verus!
