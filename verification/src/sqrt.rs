//! Exponentiation, the Legendre classification and square roots: the
//! quadratic character is computed by raising to `(p - 1) / 2`, and square
//! roots by the Tonelli–Shanks descent through the `2`-adic part of the
//! multiplicative group.

use vstd::prelude::*;
use crate::arith::{
    fmul, pow_mod, f_valid, lemma_f_bound, lemma_f_small, lemma_fmul_one, lemma_fmul_assoc,
    lemma_fmul_assoc_general, lemma_fmul_comm, lemma_fsub_mods, lemma_pow_mod_even,
    lemma_pow_mod_valid, lemma_pow_mod_adds, lemma_pow_mod_mul, lemma_pow_mod_product,
    lemma_pow_mod_one_exp, lemma_pow_mod_zero_base,
};
use vstd::arithmetic::div_mod::{
    lemma_fundamental_div_mod, lemma_fundamental_div_mod_converse, lemma_mod_multiples_basic,
    lemma_mod_multiples_vanish, lemma_mul_mod_noop, lemma_mul_mod_noop_left,
    lemma_mul_mod_noop_right,
};
use crate::fp::{Fp, FpParams, two_pow, is_prime, lemma_two_pow_pos, lemma_two_pow_adds};

verus! {

/// The quadratic character of an element: zero, a square, or a non-square.
#[derive(Clone, Copy, PartialEq, Eq, Structural, Debug)]
pub enum LegendreSymbol {
    /// The element is zero.
    Zero,
    /// The element has a square root.
    QuadraticResidue,
    /// The element has no square root.
    QuadraticNonResidue,
}

impl Fp {
    /// Square-and-multiply exponentiation over the bits of the exponent,
    /// low bit first.
    pub fn pow(&self, exp: u64, pp: &FpParams) -> (r: Fp)
        requires
            pp.wf_arith(),
            self.inv_holds(*pp),
        ensures
            r.inv_holds(*pp),
            r.abs(*pp) == pow_mod(pp.modulus as int, self.abs(*pp), exp as nat),
    {
        let ghost p = pp.modulus as int;
        let ghost a0 = self.abs(*pp);
        let mut result = Fp::one(pp);
        let mut base = *self;
        let mut e = exp;
        proof {
            lemma_pow_mod_valid(p, a0, exp as nat);
            lemma_fmul_comm(p, 1, pow_mod(p, a0, exp as nat));
            lemma_fmul_one(p, pow_mod(p, a0, exp as nat));
        }
        while e > 0
            invariant
                pp.wf_arith(),
                p == pp.modulus as int,
                a0 == self.abs(*pp),
                self.inv_holds(*pp),
                result.inv_holds(*pp),
                base.inv_holds(*pp),
                pow_mod(p, a0, exp as nat) == fmul(
                    p,
                    result.abs(*pp),
                    pow_mod(p, base.abs(*pp), e as nat),
                ),
            decreases e,
        {
            let ghost ra = result.abs(*pp);
            let ghost ba = base.abs(*pp);
            let ghost eg = e as nat;
            if e % 2 == 1 {
                result = result.mul(&base, pp);
            }
            base = base.square(pp);
            e = e / 2;
            proof {
                let bb = fmul(p, ba, ba);
                lemma_pow_mod_valid(p, ba, eg);
                lemma_pow_mod_valid(p, bb, (eg / 2) as nat);
                if eg % 2 == 1 {
                    // a^e = a * (a^2)^((e-1)/2); fold the leading factor into the result
                    lemma_pow_mod_even(p, ba, (eg - 1) as nat);
                    assert(pow_mod(p, ba, eg) == fmul(p, ba, pow_mod(p, ba, (eg - 1) as nat)));
                    lemma_pow_mod_valid(p, ba, (eg - 1) as nat);
                    lemma_fmul_assoc(p, ra, ba, pow_mod(p, bb, ((eg - 1) / 2) as nat));
                    assert((eg - 1) / 2 == eg / 2);
                } else {
                    lemma_pow_mod_even(p, ba, eg);
                }
            }
        }
        proof {
            assert(pow_mod(p, base.abs(*pp), 0nat) == 1int % p);
            lemma_f_small(p, 1);
            lemma_fmul_one(p, result.abs(*pp));
        }
        result
    }

    /// The Legendre symbol, by Euler's criterion: the exponentiation by
    /// `(p - 1) / 2` is classified as zero, one, or anything else.
    pub fn legendre(&self, pp: &FpParams) -> (r: LegendreSymbol)
        requires
            pp.wf_arith(),
            self.inv_holds(*pp),
        ensures
            ({
                let s = pow_mod(
                    pp.modulus as int,
                    self.abs(*pp),
                    pp.modulus_minus_one_div_two as nat,
                );
                r == (if s == 0 {
                    LegendreSymbol::Zero
                } else if s == 1 {
                    LegendreSymbol::QuadraticResidue
                } else {
                    LegendreSymbol::QuadraticNonResidue
                })
            }),
    {
        let s = self.pow(pp.modulus_minus_one_div_two, pp);
        if s.is_zero(pp) {
            LegendreSymbol::Zero
        } else if s.is_one(pp) {
            LegendreSymbol::QuadraticResidue
        } else {
            LegendreSymbol::QuadraticNonResidue
        }
    }

    /// A square root by the Tonelli–Shanks descent through the two-power
    /// part of the multiplicative group: zero yields zero, a quadratic
    /// residue always yields a root, and a non-residue yields nothing.
    /// Completeness rests on the well-formed parameter set: the root of
    /// unity reaches minus one after `s - 1` squarings, so every level of
    /// the descent has a cofactor of strictly smaller two-power order to
    /// hand down.
    pub fn sqrt(&self, pp: &FpParams) -> (r: Option<Fp>)
        requires
            pp.wf(),
            self.inv_holds(*pp),
        ensures
            match r {
                Some(root) => root.inv_holds(*pp) && fmul(
                    pp.modulus as int,
                    root.abs(*pp),
                    root.abs(*pp),
                ) == self.abs(*pp),
                None => self.abs(*pp) != 0,
            },
            self.abs(*pp) == 0 ==> r == Some(*self),
            (r is Some) <==> (self.abs(*pp) == 0 || pow_mod(
                pp.modulus as int,
                self.abs(*pp),
                pp.modulus_minus_one_div_two as nat,
            ) == 1),
    {
        let ghost p = pp.modulus as int;
        let ghost aa = self.abs(*pp);
        if self.is_zero(pp) {
            proof {
                assert(fmul(p, 0, 0) == 0) by {
                    lemma_f_small(p, 0);
                }
                // zero to any positive power is zero, not one
                lemma_pow_mod_zero_base(p, pp.modulus_minus_one_div_two as nat);
            }
            return Some(*self);
        }
        match self.legendre(pp) {
            LegendreSymbol::Zero => None,
            LegendreSymbol::QuadraticNonResidue => None,
            LegendreSymbol::QuadraticResidue => {
                let ghost t = pp.trace as int;
                let ghost s = pp.two_adicity as int;
                let mut z = Fp::root_of_unity(pp);
                let w = self.pow((pp.trace - 1) / 2, pp);
                let mut x = self.mul(&w, pp);
                let mut b = x.mul(&w, pp);
                let mut v = pp.two_adicity;
                proof {
                    lemma_f_bound(p, self.repr * pp.r_inv);
                    lemma_sqrt_init(p, aa, w.abs(*pp));
                    // b holds the receiver raised to the odd factor of p - 1
                    let h = (((pp.trace - 1) / 2) as u64) as nat;
                    let wv = w.abs(*pp);
                    assert(wv == pow_mod(p, aa, h));
                    assert(h + h == (t - 1) as nat) by {
                        lemma_fundamental_div_mod(t, 2);
                        assert(t == 2 * (t / 2) + 1);
                        lemma_fundamental_div_mod(t - 1, 2);
                        assert((t - 1) % 2 == 0) by {
                            lemma_mod_multiples_basic(t / 2, 2);
                            assert(t - 1 == (t / 2) * 2);
                        }
                    }
                    let bv = b.abs(*pp);
                    lemma_fmul_assoc_general(p, aa, wv, wv);
                    lemma_pow_mod_adds(p, aa, h, h);
                    assert(pow_mod(p, aa, t as nat) == fmul(
                        p,
                        aa,
                        pow_mod(p, aa, (t - 1) as nat),
                    ));
                    assert(bv == pow_mod(p, aa, t as nat));
                    // the Legendre exponent splits as the odd factor times
                    // the two-power tail
                    let tp = two_pow((s - 1) as nat);
                    lemma_two_pow_pos((s - 1) as nat);
                    assert((p - 1) / 2 == t * tp) by {
                        assert(two_pow(s as nat) == 2 * tp);
                        assert(t * (2 * tp) == 2 * (t * tp)) by (nonlinear_arith);
                        lemma_fundamental_div_mod_converse(p - 1, 2, t * tp, 0);
                    }
                    lemma_pow_mod_mul(p, aa, t as nat, tp as nat);
                    assert((t as nat) * (tp as nat) == ((p - 1) / 2) as nat);
                    assert(pow_mod(p, bv, tp as nat) == 1);
                    // the root of unity reaches minus one at the same depth
                    assert(z.abs(*pp) == (pp.root_of_unity * pp.r_inv) % p);
                    assert(pow_mod(p, z.abs(*pp), tp as nat) == p - 1);
                }
                while !b.is_one(pp)
                    invariant
                        pp.wf(),
                        x.inv_holds(*pp),
                        b.inv_holds(*pp),
                        z.inv_holds(*pp),
                        self.inv_holds(*pp),
                        aa == self.abs(*pp),
                        aa != 0,
                        p == pp.modulus as int,
                        1 <= v < 64,
                        fmul(p, x.abs(*pp), x.abs(*pp)) == fmul(p, aa, b.abs(*pp)),
                        pow_mod(p, b.abs(*pp), two_pow((v - 1) as nat) as nat) == 1,
                        pow_mod(p, z.abs(*pp), two_pow((v - 1) as nat) as nat) == p - 1,
                    decreases v,
                {
                    let ghost bval = b.abs(*pp);
                    let ghost zval = z.abs(*pp);
                    let mut k: u64 = 0;
                    let mut b2k = b;
                    proof {
                        lemma_f_bound(p, b.repr * pp.r_inv);
                        lemma_pow_mod_one_exp(p, bval);
                        assert(two_pow(0nat) == 1);
                    }
                    while !b2k.is_one(pp)
                        invariant
                            pp.wf_arith(),
                            p == pp.modulus as int,
                            b2k.inv_holds(*pp),
                            0 <= bval < p,
                            bval != 1,
                            1 <= v < 64,
                            k <= v - 1,
                            b2k.abs(*pp) == pow_mod(p, bval, two_pow(k as nat) as nat),
                            k >= 1 ==> pow_mod(p, bval, two_pow((k - 1) as nat) as nat) != 1,
                            pow_mod(p, bval, two_pow((v - 1) as nat) as nat) == 1,
                        decreases v - 1 - k,
                    {
                        proof {
                            // the closing exponent of the level caps the scan
                            assert(k < v - 1);
                        }
                        b2k = b2k.square(pp);
                        k = k + 1;
                        proof {
                            lemma_two_pow_pos((k - 1) as nat);
                            lemma_pow_mod_adds(
                                p,
                                bval,
                                two_pow((k - 1) as nat) as nat,
                                two_pow((k - 1) as nat) as nat,
                            );
                            assert(two_pow(k as nat) == 2 * two_pow((k - 1) as nat));
                        }
                    }
                    proof {
                        assert(k >= 1) by {
                            if k == 0 {
                                assert(two_pow(0nat) == 1);
                                lemma_pow_mod_one_exp(p, bval);
                            }
                        }
                    }
                    let count = v - k - 1;
                    let mut wstep = z;
                    let mut i: u64 = 0;
                    proof {
                        lemma_f_bound(p, z.repr * pp.r_inv);
                        lemma_pow_mod_one_exp(p, zval);
                        assert(two_pow(0nat) == 1);
                    }
                    while i < count
                        invariant
                            pp.wf_arith(),
                            p == pp.modulus as int,
                            wstep.inv_holds(*pp),
                            i <= count,
                            count < 64,
                            0 <= zval < p,
                            wstep.abs(*pp) == pow_mod(p, zval, two_pow(i as nat) as nat),
                        decreases count - i,
                    {
                        wstep = wstep.square(pp);
                        i = i + 1;
                        proof {
                            lemma_two_pow_pos((i - 1) as nat);
                            lemma_pow_mod_adds(
                                p,
                                zval,
                                two_pow((i - 1) as nat) as nat,
                                two_pow((i - 1) as nat) as nat,
                            );
                            assert(two_pow(i as nat) == 2 * two_pow((i - 1) as nat));
                        }
                    }
                    let ghost xa = x.abs(*pp);
                    let ghost wa = wstep.abs(*pp);
                    proof {
                        lemma_f_bound(p, x.repr * pp.r_inv);
                        lemma_f_bound(p, wstep.repr * pp.r_inv);
                    }
                    z = wstep.square(pp);
                    b = b.mul(&z, pp);
                    x = x.mul(&wstep, pp);
                    proof {
                        // the new cofactor is the old root of unity raised
                        // to the two-power v - k
                        lemma_two_pow_pos(count as nat);
                        lemma_pow_mod_adds(
                            p,
                            zval,
                            two_pow(count as nat) as nat,
                            two_pow(count as nat) as nat,
                        );
                        assert(two_pow((count + 1) as nat) == 2 * two_pow(count as nat));
                        let zz = z.abs(*pp);
                        assert(zz == pow_mod(p, zval, two_pow((v - k) as nat) as nat));
                        // its two-power tail of depth k - 1 reaches minus one
                        lemma_pow_mod_mul(
                            p,
                            zval,
                            two_pow((v - k) as nat) as nat,
                            two_pow((k - 1) as nat) as nat,
                        );
                        lemma_two_pow_adds((v - k) as nat, (k - 1) as nat);
                        lemma_two_pow_pos((v - k) as nat);
                        lemma_two_pow_pos((k - 1) as nat);
                        assert((two_pow((v - k) as nat) as nat) * (two_pow((k - 1) as nat) as nat)
                            == two_pow((v - 1) as nat) as nat);
                        assert(pow_mod(p, zz, two_pow((k - 1) as nat) as nat) == p - 1);
                        // the half-tail of b squares to one but is not one,
                        // so it is the other square root of one: minus one
                        let b1 = pow_mod(p, bval, two_pow((k - 1) as nat) as nat);
                        lemma_pow_mod_adds(
                            p,
                            bval,
                            two_pow((k - 1) as nat) as nat,
                            two_pow((k - 1) as nat) as nat,
                        );
                        assert(two_pow(k as nat) == 2 * two_pow((k - 1) as nat));
                        assert(fmul(p, b1, b1) == pow_mod(p, bval, two_pow(k as nat) as nat));
                        lemma_pow_mod_valid(p, bval, two_pow((k - 1) as nat) as nat);
                        lemma_square_root_of_one(p, b1);
                        // so the updated cofactor's half-tail closes at one
                        let bv2 = b.abs(*pp);
                        assert(bv2 == fmul(p, bval, zz));
                        lemma_pow_mod_product(p, bval, zz, two_pow((k - 1) as nat) as nat);
                        lemma_minus_one_squares(p);
                        assert(pow_mod(p, bv2, two_pow((k - 1) as nat) as nat) == 1);
                        // and the tracked square relation advances
                        lemma_sqrt_step(p, xa, bval, aa, wa);
                        assert(zz == fmul(p, wa, wa));
                    }
                    v = k;
                }
                proof {
                    lemma_f_bound(p, self.repr * pp.r_inv);
                    lemma_fmul_one(p, aa);
                }
                Some(x)
            },
        }
    }
}

/// The opening state of the descent: with `x = a * w` and `b = x * w`,
/// the square of `x` is `a * b`.
proof fn lemma_sqrt_init(p: int, aa: int, wa: int)
    requires
        p > 1,
        f_valid(p, aa),
        f_valid(p, wa),
    ensures
        fmul(p, fmul(p, aa, wa), fmul(p, aa, wa)) == fmul(p, aa, fmul(p, fmul(p, aa, wa), wa)),
{
    let xa = fmul(p, aa, wa);
    lemma_f_bound(p, aa * wa);
    lemma_fmul_assoc(p, aa, xa, wa);
    lemma_fmul_comm(p, xa, wa);
    lemma_fmul_assoc(p, aa, wa, xa);
    lemma_fmul_comm(p, aa, xa);
    assert(fmul(p, xa, xa) == fmul(p, fmul(p, aa, wa), xa));
}

/// One step of the descent: scaling the root candidate by `w` scales the
/// tracked cofactor by `w * w`.
proof fn lemma_sqrt_step(p: int, xa: int, ba: int, aa: int, wa: int)
    requires
        p > 1,
        f_valid(p, xa),
        f_valid(p, ba),
        f_valid(p, aa),
        f_valid(p, wa),
        fmul(p, xa, xa) == fmul(p, aa, ba),
    ensures
        fmul(p, fmul(p, xa, wa), fmul(p, xa, wa)) == fmul(
            p,
            aa,
            fmul(p, ba, fmul(p, wa, wa)),
        ),
{
    let xw = fmul(p, xa, wa);
    let ww = fmul(p, wa, wa);
    lemma_f_bound(p, xa * wa);
    lemma_f_bound(p, wa * wa);
    assert(fmul(p, xw, xw) == ((xa * wa) * (xa * wa)) % p) by {
        lemma_mul_mod_noop(xa * wa, xa * wa, p);
    }
    assert((xa * wa) * (xa * wa) == (xa * xa) * (wa * wa)) by (nonlinear_arith);
    assert(((xa * xa) * (wa * wa)) % p == (fmul(p, xa, xa) * ww) % p) by {
        lemma_mul_mod_noop(xa * xa, wa * wa, p);
        lemma_f_bound(p, xa * xa);
        lemma_f_small(p, fmul(p, xa, xa));
        lemma_f_small(p, ww);
    }
    assert((fmul(p, aa, ba) * ww) % p == ((aa * ba) * ww) % p) by {
        lemma_mul_mod_noop_left(aa * ba, ww, p);
        lemma_f_small(p, fmul(p, aa, ba));
        lemma_mul_mod_noop_left(fmul(p, aa, ba), ww, p);
    }
    assert((aa * ba) * ww == aa * (ba * ww)) by (nonlinear_arith);
    assert((aa * (ba * ww)) % p == fmul(p, aa, fmul(p, ba, ww))) by {
        lemma_mul_mod_noop_right(aa, ba * ww, p);
        lemma_f_bound(p, ba * ww);
        lemma_f_small(p, fmul(p, ba, ww));
        lemma_mul_mod_noop_right(aa, fmul(p, ba, ww), p);
    }
}


/// Euclid's descent for a prime modulus: a prime dividing a product whose
/// first factor lies strictly between zero and it divides the other factor.
proof fn lemma_euclid(p: int, a: int, b: int)
    requires
        is_prime(p),
        1 <= a < p,
        (a * b) % p == 0,
    ensures
        b % p == 0,
    decreases a,
{
    if a == 1 {
        assert(1 * b == b) by (nonlinear_arith);
    } else {
        lemma_fundamental_div_mod(p, a);
        let q = p / a;
        let r = p % a;
        lemma_f_bound(a, p);
        assert(r != 0);
        lemma_fundamental_div_mod(a * b, p);
        let m = (a * b) / p;
        assert(a * b == p * m);
        assert(r * b == p * (b - q * m)) by (nonlinear_arith)
            requires
                r == p - a * q,
                a * b == p * m,
        ;
        assert((r * b) % p == 0) by {
            lemma_mod_multiples_basic(b - q * m, p);
            assert(r * b == (b - q * m) * p);
        }
        lemma_euclid(p, r, b);
    }
}

/// One has exactly two square roots modulo an odd prime: one and minus one.
proof fn lemma_square_root_of_one(p: int, x: int)
    requires
        is_prime(p),
        p > 2,
        0 <= x < p,
        fmul(p, x, x) == 1,
        x != 1,
    ensures
        x == p - 1,
{
    if x == 0 {
        assert(0int * 0 == 0) by (nonlinear_arith);
        lemma_f_small(p, 0);
        assert(false);
    }
    if x != p - 1 {
        // the square minus one factors through the modulus
        assert(((x - 1) * (x + 1)) % p == 0) by {
            assert((x - 1) * (x + 1) == x * x - 1) by (nonlinear_arith);
            lemma_f_small(p, 1);
            lemma_fsub_mods(p, x * x, 1);
            lemma_f_small(p, 0);
        }
        lemma_euclid(p, x - 1, x + 1);
        // but the second factor is a nonzero residue below the modulus
        lemma_f_small(p, x + 1);
        assert(false);
    }
}

/// Minus one squares to one.
proof fn lemma_minus_one_squares(p: int)
    requires
        p > 1,
    ensures
        fmul(p, p - 1, p - 1) == 1,
{
    assert((p - 1) * (p - 1) == p * (p - 2) + 1) by (nonlinear_arith);
    lemma_mod_multiples_vanish(p - 2, 1, p);
    lemma_f_small(p, 1);
}

impl Fp {
    /// Square root in place; a non-residue is left unchanged and reported.
    pub fn sqrt_in_place(&mut self, pp: &FpParams) -> (r: bool)
        requires
            pp.wf(),
            old(self).inv_holds(*pp),
        ensures
            final(self).inv_holds(*pp),
            !r ==> *final(self) == *old(self),
            r ==> fmul(pp.modulus as int, final(self).abs(*pp), final(self).abs(*pp)) == old(
                self,
            ).abs(*pp),
            r <==> (old(self).abs(*pp) == 0 || pow_mod(
                pp.modulus as int,
                old(self).abs(*pp),
                pp.modulus_minus_one_div_two as nat,
            ) == 1),
    {
        match self.sqrt(pp) {
            Some(root) => {
                *self = root;
                true
            },
            None => false,
        }
    }
}

} // verus!
