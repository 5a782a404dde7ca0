//! The quadratic extension of the prime field: an element is a pair
//! `c0 + c1 X` with `X^2` a configured nonresidue. Multiplication runs the
//! Karatsuba shortcut of three base products and is proved equal to the
//! schoolbook expansion; squaring uses the complex-squaring identity.

use vstd::prelude::*;
use vstd::arithmetic::div_mod::{
    lemma_add_mod_noop_right, lemma_mul_mod_noop, lemma_mul_mod_noop_right,
};
use crate::arith::{
    fadd, fsub, fmul, pow_mod, f_valid, lemma_f_bound, lemma_f_small, lemma_fadd_mods,
    lemma_fsub_mods, lemma_fmul_comm,
};
use crate::fp::{Fp, FpParams};
use crate::towerspec::{V2, v2_valid, v2_add, v2_sub, v2_mul, v2_scale_fp};

verus! {

/// The parameter set of one quadratic extension: the base field, the
/// nonresidue that `X` squares to, and the two Frobenius coefficients.
pub struct Fp2Parameters {
    /// The base prime field.
    pub fp: FpParams,
    /// The quadratic nonresidue `X^2`, as a base element.
    pub nonresidue: Fp,
    /// `nonresidue^((p - 1) / 2 * i)` for `i` of zero and one: what the
    /// `p^i`-power map multiplies the `X` coordinate by.
    pub frobenius_coeff_c1: Vec<Fp>,
}

impl Fp2Parameters {
    /// Everything the extension's proofs need of the parameter set.
    pub open spec fn wf(self) -> bool {
        &&& self.fp.wf()
        &&& self.nonresidue.inv_holds(self.fp)
        &&& self.nonresidue.abs(self.fp) != 0
        &&& self.frobenius_coeff_c1@.len() == 2
        &&& self.frobenius_coeff_c1@[0].inv_holds(self.fp)
        &&& self.frobenius_coeff_c1@[1].inv_holds(self.fp)
        &&& self.frobenius_coeff_c1@[0].abs(self.fp) == 1
        &&& self.frobenius_coeff_c1@[1].abs(self.fp) == pow_mod(
            self.fp.modulus as int,
            self.nonresidue.abs(self.fp),
            self.fp.modulus_minus_one_div_two as nat,
        )
        &&& fmul(
            self.fp.modulus as int,
            self.frobenius_coeff_c1@[1].abs(self.fp),
            self.frobenius_coeff_c1@[1].abs(self.fp),
        ) == 1
    }

    /// The modulus of the base field, as the model sees it.
    pub open spec fn p(self) -> int {
        self.fp.modulus as int
    }

    /// The nonresidue, as the model sees it.
    pub open spec fn nr(self) -> int {
        self.nonresidue.abs(self.fp)
    }

    /// The Frobenius coefficient selected by a power.
    pub open spec fn frob_coeff(self, power: nat) -> int {
        if power % 2 == 0 {
            self.frobenius_coeff_c1@[0].abs(self.fp)
        } else {
            self.frobenius_coeff_c1@[1].abs(self.fp)
        }
    }

    /// Assemble the extension's parameters over a base field from a raw
    /// nonresidue, deriving the Frobenius coefficient by exponentiation;
    /// it succeeds exactly when the nonresidue is a nonzero residue whose
    /// Legendre power is a square root of one.
    pub fn new(fp: FpParams, nonresidue: u64) -> (r: Option<Fp2Parameters>)
        requires
            fp.wf(),
        ensures
            match r {
                Some(pp2) => pp2.wf() && pp2.fp == fp && pp2.nonresidue.abs(fp)
                    == nonresidue as int,
                None => true,
            },
            (r is Some) <==> (0 < nonresidue < fp.modulus && fmul(
                fp.modulus as int,
                pow_mod(fp.modulus as int, nonresidue as int, fp.modulus_minus_one_div_two as nat),
                pow_mod(fp.modulus as int, nonresidue as int, fp.modulus_minus_one_div_two as nat),
            ) == 1),
    {
        if nonresidue == 0 || nonresidue >= fp.modulus {
            return None;
        }
        let nr = Fp::from_repr(nonresidue, &fp);
        let c1 = nr.pow(fp.modulus_minus_one_div_two, &fp);
        let c1sq = c1.mul(&c1, &fp);
        if !c1sq.is_one(&fp) {
            return None;
        }
        let one = Fp::one(&fp);
        let mut table: Vec<Fp> = Vec::new();
        table.push(one);
        table.push(c1);
        Some(Fp2Parameters { fp, nonresidue: nr, frobenius_coeff_c1: table })
    }
}

/// One element of the quadratic extension.
#[derive(Clone, Copy, PartialEq, Eq, Structural, Debug)]
pub struct Fp2 {
    /// The constant coordinate.
    pub c0: Fp,
    /// The `X` coordinate.
    pub c1: Fp,
}

/// The model value of a quadratic-extension element.
pub open spec fn fp2_v(e: Fp2, pp: FpParams) -> V2 {
    V2 { c0: e.c0.abs(pp), c1: e.c1.abs(pp) }
}

/// Both coordinates are stored reduced.
pub open spec fn fp2_inv(e: Fp2, pp: FpParams) -> bool {
    e.c0.inv_holds(pp) && e.c1.inv_holds(pp)
}

/// The model value of an element is always canonical.
pub proof fn lemma_fp2_v_valid(e: Fp2, pp: FpParams)
    requires
        pp.wf(),
    ensures
        v2_valid(pp.modulus as int, fp2_v(e, pp)),
{
    lemma_f_bound(pp.modulus as int, e.c0.repr * pp.r_inv);
    lemma_f_bound(pp.modulus as int, e.c1.repr * pp.r_inv);
}

impl Fp2 {
    /// Pair two base elements.
    pub fn new(c0: Fp, c1: Fp) -> (r: Fp2)
        ensures
            r.c0 == c0,
            r.c1 == c1,
    {
        Fp2 { c0, c1 }
    }

    /// The additive identity.
    pub fn zero() -> (r: Fp2)
        ensures
            r.c0.repr == 0,
            r.c1.repr == 0,
    {
        Fp2 { c0: Fp::zero(), c1: Fp::zero() }
    }

    /// The multiplicative identity.
    pub fn one(pp2: &Fp2Parameters) -> (r: Fp2)
        requires
            pp2.wf(),
        ensures
            r == (Fp2 { c0: Fp { repr: pp2.fp.r }, c1: Fp { repr: 0 } }),
            fp2_inv(r, pp2.fp),
            fp2_v(r, pp2.fp) == (V2 { c0: 1, c1: 0 }),
    {
        proof {
            assert((0int * pp2.fp.r_inv as int) == 0) by (nonlinear_arith);
            lemma_f_small(pp2.p(), 0);
        }
        Fp2 { c0: Fp::one(&pp2.fp), c1: Fp::zero() }
    }

    /// Whether both coordinates are zero.
    pub fn is_zero(&self, pp2: &Fp2Parameters) -> (r: bool)
        requires
            pp2.wf(),
            fp2_inv(*self, pp2.fp),
        ensures
            r == (fp2_v(*self, pp2.fp) == (V2 { c0: 0, c1: 0 })),
    {
        self.c0.is_zero(&pp2.fp) && self.c1.is_zero(&pp2.fp)
    }

    /// Component-wise addition.
    pub fn add(&self, other: &Fp2, pp2: &Fp2Parameters) -> (r: Fp2)
        requires
            pp2.wf(),
            fp2_inv(*self, pp2.fp),
            fp2_inv(*other, pp2.fp),
        ensures
            fp2_inv(r, pp2.fp),
            fp2_v(r, pp2.fp) == v2_add(pp2.p(), fp2_v(*self, pp2.fp), fp2_v(*other, pp2.fp)),
    {
        Fp2 { c0: self.c0.add(&other.c0, &pp2.fp), c1: self.c1.add(&other.c1, &pp2.fp) }
    }

    /// Component-wise subtraction.
    pub fn sub(&self, other: &Fp2, pp2: &Fp2Parameters) -> (r: Fp2)
        requires
            pp2.wf(),
            fp2_inv(*self, pp2.fp),
            fp2_inv(*other, pp2.fp),
        ensures
            fp2_inv(r, pp2.fp),
            fp2_v(r, pp2.fp) == v2_sub(pp2.p(), fp2_v(*self, pp2.fp), fp2_v(*other, pp2.fp)),
    {
        Fp2 { c0: self.c0.sub(&other.c0, &pp2.fp), c1: self.c1.sub(&other.c1, &pp2.fp) }
    }

    /// Doubling, component-wise.
    pub fn double(&self, pp2: &Fp2Parameters) -> (r: Fp2)
        requires
            pp2.wf(),
            fp2_inv(*self, pp2.fp),
        ensures
            fp2_inv(r, pp2.fp),
            fp2_v(r, pp2.fp) == v2_add(pp2.p(), fp2_v(*self, pp2.fp), fp2_v(*self, pp2.fp)),
    {
        self.add(self, pp2)
    }

    /// The product, by the Karatsuba shortcut: three base multiplications
    /// carry the full schoolbook expansion.
    pub fn mul(&self, other: &Fp2, pp2: &Fp2Parameters) -> (r: Fp2)
        requires
            pp2.wf(),
            fp2_inv(*self, pp2.fp),
            fp2_inv(*other, pp2.fp),
        ensures
            fp2_inv(r, pp2.fp),
            fp2_v(r, pp2.fp) == v2_mul(
                pp2.p(),
                pp2.nr(),
                fp2_v(*self, pp2.fp),
                fp2_v(*other, pp2.fp),
            ),
    {
        let fp = &pp2.fp;
        let t0 = self.c0.mul(&other.c0, fp);
        let t1 = self.c1.mul(&other.c1, fp);
        let sum_a = self.c0.add(&self.c1, fp);
        let sum_b = other.c0.add(&other.c1, fp);
        let cross = sum_a.mul(&sum_b, fp);
        let c0 = t0.add(&pp2.nonresidue.mul(&t1, fp), fp);
        let c1 = cross.sub(&t0, fp).sub(&t1, fp);
        proof {
            let p = pp2.p();
            let a0 = self.c0.abs(*fp);
            let a1 = self.c1.abs(*fp);
            let b0 = other.c0.abs(*fp);
            let b1 = other.c1.abs(*fp);
            lemma_f_bound(p, self.c0.repr * fp.r_inv);
            lemma_f_bound(p, self.c1.repr * fp.r_inv);
            lemma_f_bound(p, other.c0.repr * fp.r_inv);
            lemma_f_bound(p, other.c1.repr * fp.r_inv);
            lemma_karatsuba(p, a0, a1, b0, b1);
            lemma_fmul_comm(p, pp2.nr(), fmul(p, a1, b1));
        }
        Fp2 { c0, c1 }
    }

    /// Squaring by the complex-squaring identity: one product and one
    /// cross-term, against the schoolbook square.
    pub fn square(&self, pp2: &Fp2Parameters) -> (r: Fp2)
        requires
            pp2.wf(),
            fp2_inv(*self, pp2.fp),
        ensures
            fp2_inv(r, pp2.fp),
            fp2_v(r, pp2.fp) == v2_mul(pp2.p(), pp2.nr(), fp2_v(*self, pp2.fp), fp2_v(*self, pp2.fp)),
    {
        let fp = &pp2.fp;
        let v = self.c0.mul(&self.c1, fp);
        let sum = self.c0.add(&self.c1, fp);
        let shifted = self.c0.add(&pp2.nonresidue.mul(&self.c1, fp), fp);
        let c0 = sum.mul(&shifted, fp).sub(&v, fp).sub(&pp2.nonresidue.mul(&v, fp), fp);
        let c1 = v.double(fp);
        proof {
            let p = pp2.p();
            let a0 = self.c0.abs(*fp);
            let a1 = self.c1.abs(*fp);
            lemma_f_bound(p, self.c0.repr * fp.r_inv);
            lemma_f_bound(p, self.c1.repr * fp.r_inv);
            lemma_complex_square(p, pp2.nr(), a0, a1);
            lemma_fmul_comm(p, a0, a1);
            lemma_fmul_comm(p, pp2.nr(), fmul(p, a0, a1));
        }
        Fp2 { c0, c1 }
    }

    /// Scaling both coordinates by a base-field element.
    pub fn mul_by_fp(&self, k: &Fp, pp2: &Fp2Parameters) -> (r: Fp2)
        requires
            pp2.wf(),
            fp2_inv(*self, pp2.fp),
            k.inv_holds(pp2.fp),
        ensures
            fp2_inv(r, pp2.fp),
            fp2_v(r, pp2.fp) == v2_scale_fp(pp2.p(), fp2_v(*self, pp2.fp), k.abs(pp2.fp)),
    {
        Fp2 { c0: self.c0.mul(k, &pp2.fp), c1: self.c1.mul(k, &pp2.fp) }
    }

    /// The `p^power`-power map: conjugation up to the configured
    /// coefficient on the `X` coordinate.
    pub fn frobenius_map(&mut self, power: usize, pp2: &Fp2Parameters)
        requires
            pp2.wf(),
            fp2_inv(*old(self), pp2.fp),
        ensures
            fp2_inv(*final(self), pp2.fp),
            fp2_v(*final(self), pp2.fp) == (V2 {
                c0: old(self).c0.abs(pp2.fp),
                c1: fmul(
                    pp2.p(),
                    old(self).c1.abs(pp2.fp),
                    pp2.frob_coeff(power as nat),
                ),
            }),
    {
        let idx = power % 2;
        let coeff = pp2.frobenius_coeff_c1[idx];
        self.c1 = self.c1.mul(&coeff, &pp2.fp);
    }
}

/// The Karatsuba identity under the modulus: the cross product recovered
/// from the product of sums equals the schoolbook cross terms.
proof fn lemma_karatsuba(p: int, a0: int, a1: int, b0: int, b1: int)
    requires
        p > 1,
        f_valid(p, a0),
        f_valid(p, a1),
        f_valid(p, b0),
        f_valid(p, b1),
    ensures
        fsub(p, fsub(p, fmul(p, fadd(p, a0, a1), fadd(p, b0, b1)), fmul(p, a0, b0)), fmul(
            p,
            a1,
            b1,
        )) == fadd(p, fmul(p, a0, b1), fmul(p, a1, b0)),
{
    let cross = fmul(p, fadd(p, a0, a1), fadd(p, b0, b1));
    assert(cross == ((a0 + a1) * (b0 + b1)) % p) by {
        lemma_mul_mod_noop(a0 + a1, b0 + b1, p);
    }
    assert(fsub(p, cross, fmul(p, a0, b0)) == ((a0 + a1) * (b0 + b1) - a0 * b0) % p) by {
        lemma_fsub_mods(p, (a0 + a1) * (b0 + b1), a0 * b0);
    }
    assert(fsub(p, fsub(p, cross, fmul(p, a0, b0)), fmul(p, a1, b1)) == ((a0 + a1) * (b0 + b1) - a0
        * b0 - a1 * b1) % p) by {
        lemma_fsub_mods(p, (a0 + a1) * (b0 + b1) - a0 * b0, a1 * b1);
    }
    assert((a0 + a1) * (b0 + b1) - a0 * b0 - a1 * b1 == a0 * b1 + a1 * b0) by (nonlinear_arith);
    lemma_fadd_mods(p, a0 * b1, a1 * b0);
}

/// The complex-squaring identity under the modulus.
proof fn lemma_complex_square(p: int, nr: int, a0: int, a1: int)
    requires
        p > 1,
        f_valid(p, nr),
        f_valid(p, a0),
        f_valid(p, a1),
    ensures
        fsub(
            p,
            fsub(p, fmul(p, fadd(p, a0, a1), fadd(p, a0, fmul(p, nr, a1))), fmul(p, a0, a1)),
            fmul(p, nr, fmul(p, a0, a1)),
        ) == fadd(p, fmul(p, a0, a0), fmul(p, nr, fmul(p, a1, a1))),
{
    let shifted = fadd(p, a0, fmul(p, nr, a1));
    assert(shifted == (a0 + nr * a1) % p) by {
        lemma_add_mod_noop_right(a0, nr * a1, p);
        lemma_f_small(p, a0);
    }
    let prod = fmul(p, fadd(p, a0, a1), shifted);
    assert(prod == ((a0 + a1) * (a0 + nr * a1)) % p) by {
        lemma_mul_mod_noop(a0 + a1, a0 + nr * a1, p);
    }
    assert(fsub(p, prod, fmul(p, a0, a1)) == ((a0 + a1) * (a0 + nr * a1) - a0 * a1) % p) by {
        lemma_fsub_mods(p, (a0 + a1) * (a0 + nr * a1), a0 * a1);
    }
    assert(fmul(p, nr, fmul(p, a0, a1)) == (nr * (a0 * a1)) % p) by {
        lemma_mul_mod_noop_right(nr, a0 * a1, p);
        lemma_f_small(p, nr);
    }
    assert(fsub(p, fsub(p, prod, fmul(p, a0, a1)), fmul(p, nr, fmul(p, a0, a1))) == ((a0 + a1)
        * (a0 + nr * a1) - a0 * a1 - nr * (a0 * a1)) % p) by {
        lemma_fsub_mods(p, (a0 + a1) * (a0 + nr * a1) - a0 * a1, nr * (a0 * a1));
    }
    assert((a0 + a1) * (a0 + nr * a1) - a0 * a1 - nr * (a0 * a1) == a0 * a0 + nr * (a1 * a1))
        by (nonlinear_arith);
    assert(fadd(p, fmul(p, a0, a0), fmul(p, nr, fmul(p, a1, a1))) == (a0 * a0 + nr * (a1 * a1))
        % p) by {
        lemma_mul_mod_noop_right(nr, a1 * a1, p);
        lemma_f_small(p, nr);
        lemma_fadd_mods(p, a0 * a0, nr * (a1 * a1));
    }
}

} // verus!
