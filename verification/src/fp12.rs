//! The top of the tower: a quadratic extension over the cubic level, whose
//! `Z^2` is the rotation nonresidue `Y`. Here live the pairing-facing
//! helpers: scaling by a prime-field element, the two sparse products that
//! line evaluation produces, and the Granger–Scott cyclotomic squaring,
//! gated on the characteristic being a unit modulo six.

use vstd::prelude::*;
use vstd::arithmetic::div_mod::lemma_small_mod;
use crate::arith::{lemma_f_small};
use crate::fp::{Fp, FpParams};
use crate::fp2::{Fp2, fp2_v, fp2_inv, lemma_fp2_v_valid};
use crate::fp6::{Fp6, Fp6Parameters, fp6_v, fp6_inv, frob6_v, lemma_fp6_v_valid};
use crate::towerspec::{
    V2, V6, V12, v2_zero, v2_add, v2_mul, v6_add, v6_mul, v6_scale,
    v6_mul_by_nonresidue, v12_mul, v12_scale_fp, lemma_v2_zero_laws,
    lemma_v2_mul_valid, lemma_v2_add_valid, lemma_v6_add_valid, lemma_v6_mul_valid,
    lemma_v6_mul_add_left, lemma_v6_mul_add_right, lemma_v6_add4_cancel, lemma_v6_add4_cancel2,
    lemma_v6_add_comm,
};

verus! {

/// The parameter set of the top level: the cubic level under it and the
/// twelve Frobenius coefficients of the `Z` coordinate. The nonresidue of
/// this level is fixed: it is `Y` itself, acting by rotation.
pub struct Fp12Parameters {
    /// The cubic extension this level is built on.
    pub fp6: Fp6Parameters,
    /// What the `p^i`-power map multiplies the `Z` coordinate by.
    pub frobenius_coeff_c1: Vec<Fp2>,
}

impl Fp12Parameters {
    /// Everything the top level's proofs need of the parameter set.
    pub open spec fn wf(self) -> bool {
        &&& self.fp6.wf()
        &&& self.frobenius_coeff_c1@.len() == 12
        &&& forall|i: int|
            0 <= i < 12 ==> fp2_inv(#[trigger] self.frobenius_coeff_c1@[i], self.fp6.fp2.fp)
        &&& fp2_v(self.frobenius_coeff_c1@[0], self.fp6.fp2.fp) == (V2 { c0: 1, c1: 0 })
    }

    /// The base modulus.
    pub open spec fn p(self) -> int {
        self.fp6.p()
    }

    /// The base-level nonresidue.
    pub open spec fn nr(self) -> int {
        self.fp6.nr()
    }

    /// The cube nonresidue of the middle level.
    pub open spec fn nr2(self) -> V2 {
        self.fp6.nr2()
    }

    /// The Frobenius coefficient selected by a power.
    pub open spec fn frob_c1(self, power: nat) -> V2 {
        fp2_v(self.frobenius_coeff_c1@[(power % 12) as int], self.fp6.fp2.fp)
    }

    /// Assemble the top level's parameters, validating the twelve-entry
    /// Frobenius table; it succeeds exactly when the table has twelve
    /// valid entries opening with one.
    pub fn new(fp6: Fp6Parameters, frob_c1: Vec<Fp2>) -> (r: Option<Fp12Parameters>)
        requires
            fp6.wf(),
        ensures
            match r {
                Some(pp12) => pp12.wf() && pp12.fp6 == fp6,
                None => true,
            },
            (r is Some) <==> ({
                &&& frob_c1@.len() == 12
                &&& (forall|i: int| 0 <= i < 12 ==> fp2_inv(#[trigger] frob_c1@[i], fp6.fp2.fp))
                &&& frob_c1@[0] == (Fp2 { c0: Fp { repr: fp6.fp2.fp.r }, c1: Fp { repr: 0 } })
            }),
    {
        if frob_c1.len() != 12 {
            return None;
        }
        let mut i: usize = 0;
        while i < 12
            invariant
                fp6.wf(),
                i <= 12,
                frob_c1@.len() == 12,
                forall|j: int| 0 <= j < i ==> fp2_inv(#[trigger] frob_c1@[j], fp6.fp2.fp),
            decreases 12 - i,
        {
            if !frob_c1[i].c0.is_valid(&fp6.fp2.fp) || !frob_c1[i].c1.is_valid(&fp6.fp2.fp) {
                return None;
            }
            i = i + 1;
        }
        if !(frob_c1[0] == Fp2::one(&fp6.fp2)) {
            return None;
        }
        Some(Fp12Parameters { fp6, frobenius_coeff_c1: frob_c1 })
    }

    /// Multiplying a cubic-level value by this level's nonresidue `Y`:
    /// the coordinates rotate and the top one is scaled by the cube
    /// nonresidue.
    pub fn mul_fp6_by_nonresidue(&self, fe: &Fp6) -> (r: Fp6)
        requires
            self.wf(),
            fp6_inv(*fe, self.fp6.fp2.fp),
        ensures
            fp6_inv(r, self.fp6.fp2.fp),
            fp6_v(r, self.fp6.fp2.fp) == v6_mul_by_nonresidue(
                self.p(),
                self.nr(),
                self.nr2(),
                fp6_v(*fe, self.fp6.fp2.fp),
            ),
    {
        let new_c0 = self.fp6.mul_fp2_by_nonresidue(&fe.c2);
        let new_c1 = fe.c0;
        let new_c2 = fe.c1;
        Fp6::new(new_c0, new_c1, new_c2)
    }
}

/// One element of the top-level extension.
#[derive(Clone, Copy, PartialEq, Eq, Structural, Debug)]
pub struct Fp12 {
    /// The constant coordinate.
    pub c0: Fp6,
    /// The `Z` coordinate.
    pub c1: Fp6,
}

/// The model value of a top-level element.
pub open spec fn fp12_v(e: Fp12, pp: FpParams) -> V12 {
    V12 { c0: fp6_v(e.c0, pp), c1: fp6_v(e.c1, pp) }
}

/// All twelve coordinates are stored reduced.
pub open spec fn fp12_inv(e: Fp12, pp: FpParams) -> bool {
    fp6_inv(e.c0, pp) && fp6_inv(e.c1, pp)
}

impl Fp12 {
    /// Pair two cubic-level values.
    pub fn new(c0: Fp6, c1: Fp6) -> (r: Fp12)
        ensures
            r.c0 == c0,
            r.c1 == c1,
    {
        Fp12 { c0, c1 }
    }

    /// The additive identity.
    pub fn zero() -> (r: Fp12)
        ensures
            r == (Fp12 { c0: Fp6::spec_zero(), c1: Fp6::spec_zero() }),
    {
        Fp12 { c0: Fp6::zero(), c1: Fp6::zero() }
    }

    /// Component-wise addition.
    pub fn add(&self, other: &Fp12, pp12: &Fp12Parameters) -> (r: Fp12)
        requires
            pp12.wf(),
            fp12_inv(*self, pp12.fp6.fp2.fp),
            fp12_inv(*other, pp12.fp6.fp2.fp),
        ensures
            fp12_inv(r, pp12.fp6.fp2.fp),
            fp12_v(r, pp12.fp6.fp2.fp) == crate::towerspec::v12_add(
                pp12.p(),
                fp12_v(*self, pp12.fp6.fp2.fp),
                fp12_v(*other, pp12.fp6.fp2.fp),
            ),
    {
        Fp12 {
            c0: self.c0.add(&other.c0, &pp12.fp6),
            c1: self.c1.add(&other.c1, &pp12.fp6),
        }
    }

    /// Component-wise subtraction.
    pub fn sub(&self, other: &Fp12, pp12: &Fp12Parameters) -> (r: Fp12)
        requires
            pp12.wf(),
            fp12_inv(*self, pp12.fp6.fp2.fp),
            fp12_inv(*other, pp12.fp6.fp2.fp),
        ensures
            fp12_inv(r, pp12.fp6.fp2.fp),
            fp12_v(r, pp12.fp6.fp2.fp) == crate::towerspec::v12_sub(
                pp12.p(),
                fp12_v(*self, pp12.fp6.fp2.fp),
                fp12_v(*other, pp12.fp6.fp2.fp),
            ),
    {
        Fp12 {
            c0: self.c0.sub(&other.c0, &pp12.fp6),
            c1: self.c1.sub(&other.c1, &pp12.fp6),
        }
    }

    /// The product, by the Karatsuba shortcut: three cubic-level
    /// multiplications carry the full schoolbook expansion.
    pub fn mul(&self, other: &Fp12, pp12: &Fp12Parameters) -> (r: Fp12)
        requires
            pp12.wf(),
            fp12_inv(*self, pp12.fp6.fp2.fp),
            fp12_inv(*other, pp12.fp6.fp2.fp),
        ensures
            fp12_inv(r, pp12.fp6.fp2.fp),
            fp12_v(r, pp12.fp6.fp2.fp) == v12_mul(
                pp12.p(),
                pp12.nr(),
                pp12.nr2(),
                fp12_v(*self, pp12.fp6.fp2.fp),
                fp12_v(*other, pp12.fp6.fp2.fp),
            ),
    {
        let fp6 = &pp12.fp6;
        let t0 = self.c0.mul(&other.c0, fp6);
        let t1 = self.c1.mul(&other.c1, fp6);
        let sum_a = self.c0.add(&self.c1, fp6);
        let sum_b = other.c0.add(&other.c1, fp6);
        let cross = sum_a.mul(&sum_b, fp6);
        let c0 = t0.add(&pp12.mul_fp6_by_nonresidue(&t1), fp6);
        let c1 = cross.sub(&t0, fp6).sub(&t1, fp6);
        proof {
            let p = pp12.p();
            let nr = pp12.nr();
            let nr2 = pp12.nr2();
            let av = fp12_v(*self, pp12.fp6.fp2.fp);
            let bv = fp12_v(*other, pp12.fp6.fp2.fp);
            lemma_fp6_v_valid(self.c0, pp12.fp6.fp2.fp);
            lemma_fp6_v_valid(self.c1, pp12.fp6.fp2.fp);
            lemma_fp6_v_valid(other.c0, pp12.fp6.fp2.fp);
            lemma_fp6_v_valid(other.c1, pp12.fp6.fp2.fp);
            lemma_v6_add_valid(p, bv.c0, bv.c1);
            lemma_v6_mul_add_left(p, nr, nr2, av.c0, av.c1, v6_add(p, bv.c0, bv.c1));
            lemma_v6_mul_add_right(p, nr, nr2, bv.c0, bv.c1, av.c0);
            lemma_v6_mul_add_right(p, nr, nr2, bv.c0, bv.c1, av.c1);
            let w = v6_mul(p, nr, nr2, av.c0, bv.c0);
            let x = v6_mul(p, nr, nr2, av.c0, bv.c1);
            let y = v6_mul(p, nr, nr2, av.c1, bv.c0);
            let z = v6_mul(p, nr, nr2, av.c1, bv.c1);
            lemma_v6_mul_valid(p, nr, nr2, av.c0, bv.c0);
            lemma_v6_mul_valid(p, nr, nr2, av.c0, bv.c1);
            lemma_v6_mul_valid(p, nr, nr2, av.c1, bv.c0);
            lemma_v6_mul_valid(p, nr, nr2, av.c1, bv.c1);
            lemma_v6_add4_cancel2(p, w, x, y, z);
        }
        Fp12 { c0, c1 }
    }

    /// Squaring, as the product with itself.
    pub fn square(&self, pp12: &Fp12Parameters) -> (r: Fp12)
        requires
            pp12.wf(),
            fp12_inv(*self, pp12.fp6.fp2.fp),
        ensures
            fp12_inv(r, pp12.fp6.fp2.fp),
            fp12_v(r, pp12.fp6.fp2.fp) == v12_mul(
                pp12.p(),
                pp12.nr(),
                pp12.nr2(),
                fp12_v(*self, pp12.fp6.fp2.fp),
                fp12_v(*self, pp12.fp6.fp2.fp),
            ),
    {
        self.mul(self, pp12)
    }

    /// Scaling all twelve coordinates by a prime-field element.
    pub fn mul_by_fp(&mut self, element: &Fp, pp12: &Fp12Parameters)
        requires
            pp12.wf(),
            fp12_inv(*old(self), pp12.fp6.fp2.fp),
            element.inv_holds(pp12.fp6.fp2.fp),
        ensures
            fp12_inv(*final(self), pp12.fp6.fp2.fp),
            fp12_v(*final(self), pp12.fp6.fp2.fp) == v12_scale_fp(
                pp12.p(),
                fp12_v(*old(self), pp12.fp6.fp2.fp),
                element.abs(pp12.fp6.fp2.fp),
            ),
    {
        self.c0 = self.c0.mul_by_fp(element, &pp12.fp6);
        self.c1 = self.c1.mul_by_fp(element, &pp12.fp6);
    }

    /// The sparse product with an element whose only nonzero coordinates
    /// are the constant one and the two lowest of the `Z` half, as pairing
    /// line evaluation produces; equal to the full product.
    pub fn mul_by_034(&mut self, c0: &Fp2, c3: &Fp2, c4: &Fp2, pp12: &Fp12Parameters)
        requires
            pp12.wf(),
            fp12_inv(*old(self), pp12.fp6.fp2.fp),
            fp2_inv(*c0, pp12.fp6.fp2.fp),
            fp2_inv(*c3, pp12.fp6.fp2.fp),
            fp2_inv(*c4, pp12.fp6.fp2.fp),
        ensures
            fp12_inv(*final(self), pp12.fp6.fp2.fp),
            fp12_v(*final(self), pp12.fp6.fp2.fp) == v12_mul(
                pp12.p(),
                pp12.nr(),
                pp12.nr2(),
                fp12_v(*old(self), pp12.fp6.fp2.fp),
                V12 {
                    c0: V6 { c0: fp2_v(*c0, pp12.fp6.fp2.fp), c1: v2_zero(), c2: v2_zero() },
                    c1: V6 {
                        c0: fp2_v(*c3, pp12.fp6.fp2.fp),
                        c1: fp2_v(*c4, pp12.fp6.fp2.fp),
                        c2: v2_zero(),
                    },
                },
            ),
    {
        let fp6 = &pp12.fp6;
        let fp2 = &pp12.fp6.fp2;
        let fp = &pp12.fp6.fp2.fp;
        let ghost p = pp12.p();
        let ghost nr = pp12.nr();
        let ghost nr2 = pp12.nr2();
        let ghost av = fp12_v(*old(self), pp12.fp6.fp2.fp);
        let ghost b0v = V6 { c0: fp2_v(*c0, *fp), c1: v2_zero(), c2: v2_zero() };
        let ghost b1v = V6 { c0: fp2_v(*c3, *fp), c1: fp2_v(*c4, *fp), c2: v2_zero() };
        let a0 = self.c0.c0.mul(c0, fp2);
        let a1 = self.c0.c1.mul(c0, fp2);
        let a2 = self.c0.c2.mul(c0, fp2);
        let a = Fp6::new(a0, a1, a2);
        let mut b = self.c1;
        b.mul_by_01(c3, c4, fp6);
        let c0sum = c0.add(c3, fp2);
        let mut e = self.c0.add(&self.c1, fp6);
        e.mul_by_01(&c0sum, c4, fp6);
        proof {
            lemma_fp6_v_valid(old(self).c0, *fp);
            lemma_fp6_v_valid(old(self).c1, *fp);
            lemma_fp2_v_valid(*c0, *fp);
            lemma_fp2_v_valid(*c3, *fp);
            lemma_fp2_v_valid(*c4, *fp);
            lemma_sparse_c0_product(p, nr, nr2, av.c0, fp2_v(*c0, *fp));
            // the sum of the two sparse halves is the sparse sum
            lemma_v2_zero_laws(p, nr, fp2_v(*c4, *fp));
            assert(v6_add(p, b0v, b1v) == (V6 {
                c0: v2_add(p, fp2_v(*c0, *fp), fp2_v(*c3, *fp)),
                c1: fp2_v(*c4, *fp),
                c2: v2_zero(),
            })) by {
                lemma_v2_zero_laws(p, nr, v2_zero());
                lemma_f_small(p, 0);
            }
            // expand the product of sums
            lemma_v6_mul_add_left(p, nr, nr2, av.c0, av.c1, v6_add(p, b0v, b1v));
            lemma_v6_add_valid(p, b0v, b1v);
            lemma_v6_mul_add_right(p, nr, nr2, b0v, b1v, av.c0);
            lemma_v6_mul_add_right(p, nr, nr2, b0v, b1v, av.c1);
            let w = v6_mul(p, nr, nr2, av.c0, b0v);
            let x = v6_mul(p, nr, nr2, av.c0, b1v);
            let y = v6_mul(p, nr, nr2, av.c1, b0v);
            let z = v6_mul(p, nr, nr2, av.c1, b1v);
            lemma_v6_mul_valid(p, nr, nr2, av.c0, b0v);
            lemma_v6_mul_valid(p, nr, nr2, av.c0, b1v);
            lemma_v6_mul_valid(p, nr, nr2, av.c1, b0v);
            lemma_v6_mul_valid(p, nr, nr2, av.c1, b1v);
            lemma_v6_add4_cancel(p, w, x, y, z);
        }
        let sum_ab = a.add(&b, fp6);
        let new_c1 = e.sub(&sum_ab, fp6);
        let new_c0 = a.add(&pp12.mul_fp6_by_nonresidue(&b), fp6);
        self.c0 = new_c0;
        self.c1 = new_c1;
    }

    /// The sparse product with an element whose only nonzero coordinates
    /// are the two lowest of the constant half and the middle of the `Z`
    /// half; equal to the full product.
    pub fn mul_by_014(&mut self, c0: &Fp2, c1: &Fp2, c4: &Fp2, pp12: &Fp12Parameters)
        requires
            pp12.wf(),
            fp12_inv(*old(self), pp12.fp6.fp2.fp),
            fp2_inv(*c0, pp12.fp6.fp2.fp),
            fp2_inv(*c1, pp12.fp6.fp2.fp),
            fp2_inv(*c4, pp12.fp6.fp2.fp),
        ensures
            fp12_inv(*final(self), pp12.fp6.fp2.fp),
            fp12_v(*final(self), pp12.fp6.fp2.fp) == v12_mul(
                pp12.p(),
                pp12.nr(),
                pp12.nr2(),
                fp12_v(*old(self), pp12.fp6.fp2.fp),
                V12 {
                    c0: V6 {
                        c0: fp2_v(*c0, pp12.fp6.fp2.fp),
                        c1: fp2_v(*c1, pp12.fp6.fp2.fp),
                        c2: v2_zero(),
                    },
                    c1: V6 { c0: v2_zero(), c1: fp2_v(*c4, pp12.fp6.fp2.fp), c2: v2_zero() },
                },
            ),
    {
        let fp6 = &pp12.fp6;
        let fp2 = &pp12.fp6.fp2;
        let fp = &pp12.fp6.fp2.fp;
        let ghost p = pp12.p();
        let ghost nr = pp12.nr();
        let ghost nr2 = pp12.nr2();
        let ghost av = fp12_v(*old(self), pp12.fp6.fp2.fp);
        let ghost b0v = V6 { c0: fp2_v(*c0, *fp), c1: fp2_v(*c1, *fp), c2: v2_zero() };
        let ghost b1v = V6 { c0: v2_zero(), c1: fp2_v(*c4, *fp), c2: v2_zero() };
        let mut aa = self.c0;
        aa.mul_by_01(c0, c1, fp6);
        let mut bb = self.c1;
        bb.mul_by_1(c4, fp6);
        let o = c1.add(c4, fp2);
        let mut e = self.c0.add(&self.c1, fp6);
        e.mul_by_01(c0, &o, fp6);
        proof {
            lemma_fp6_v_valid(old(self).c0, *fp);
            lemma_fp6_v_valid(old(self).c1, *fp);
            lemma_fp2_v_valid(*c0, *fp);
            lemma_fp2_v_valid(*c1, *fp);
            lemma_fp2_v_valid(*c4, *fp);
            // the sum of the two sparse halves is the sparse sum
            lemma_v2_zero_laws(p, nr, fp2_v(*c0, *fp));
            assert(v6_add(p, b0v, b1v) == (V6 {
                c0: fp2_v(*c0, *fp),
                c1: v2_add(p, fp2_v(*c1, *fp), fp2_v(*c4, *fp)),
                c2: v2_zero(),
            })) by {
                lemma_v2_zero_laws(p, nr, v2_zero());
                lemma_f_small(p, 0);
            }
            lemma_v6_mul_add_left(p, nr, nr2, av.c0, av.c1, v6_add(p, b0v, b1v));
            lemma_v6_add_valid(p, b0v, b1v);
            lemma_v6_mul_add_right(p, nr, nr2, b0v, b1v, av.c0);
            lemma_v6_mul_add_right(p, nr, nr2, b0v, b1v, av.c1);
            let w = v6_mul(p, nr, nr2, av.c0, b0v);
            let x = v6_mul(p, nr, nr2, av.c0, b1v);
            let y = v6_mul(p, nr, nr2, av.c1, b0v);
            let z = v6_mul(p, nr, nr2, av.c1, b1v);
            lemma_v6_mul_valid(p, nr, nr2, av.c0, b0v);
            lemma_v6_mul_valid(p, nr, nr2, av.c0, b1v);
            lemma_v6_mul_valid(p, nr, nr2, av.c1, b0v);
            lemma_v6_mul_valid(p, nr, nr2, av.c1, b1v);
            lemma_v6_add4_cancel2(p, w, x, y, z);
            lemma_v6_add_comm(
                p,
                v6_mul_by_nonresidue(p, nr, nr2, z),
                w,
            );
        }
        let e1 = e.sub(&aa, fp6);
        let new_c1 = e1.sub(&bb, fp6);
        let new_c0 = pp12.mul_fp6_by_nonresidue(&bb).add(&aa, fp6);
        self.c0 = new_c0;
        self.c1 = new_c1;
    }

    /// The `p^power`-power map: the cubic map on both halves, then the
    /// table coefficient on the `Z` half.
    pub fn frobenius_map(&mut self, power: usize, pp12: &Fp12Parameters)
        requires
            pp12.wf(),
            fp12_inv(*old(self), pp12.fp6.fp2.fp),
        ensures
            fp12_inv(*final(self), pp12.fp6.fp2.fp),
            fp12_v(*final(self), pp12.fp6.fp2.fp) == (V12 {
                c0: frob6_v(pp12.fp6, fp6_v(old(self).c0, pp12.fp6.fp2.fp), power as nat),
                c1: v6_scale(
                    pp12.p(),
                    pp12.nr(),
                    frob6_v(pp12.fp6, fp6_v(old(self).c1, pp12.fp6.fp2.fp), power as nat),
                    pp12.frob_c1(power as nat),
                ),
            }),
    {
        self.c0.frobenius_map(power, &pp12.fp6);
        self.c1.frobenius_map(power, &pp12.fp6);
        let idx = power % 12;
        let coeff = pp12.frobenius_coeff_c1[idx];
        self.c1.mul_assign_by_fp2(coeff, &pp12.fp6);
    }
}

/// Multiplying a triple by one whose only nonzero coordinate is the
/// constant one scales every coordinate.
proof fn lemma_sparse_c0_product(p: int, nr: int, nr2: V2, x: V6, u: V2)
    requires
        p > 1,
        crate::arith::f_valid(p, nr),
        crate::towerspec::v2_valid(p, nr2),
        crate::towerspec::v6_valid(p, x),
        crate::towerspec::v2_valid(p, u),
    ensures
        v6_mul(p, nr, nr2, x, V6 { c0: u, c1: v2_zero(), c2: v2_zero() }) == (V6 {
            c0: v2_mul(p, nr, x.c0, u),
            c1: v2_mul(p, nr, x.c1, u),
            c2: v2_mul(p, nr, x.c2, u),
        }),
{
    lemma_v2_zero_laws(p, nr, x.c0);
    lemma_v2_zero_laws(p, nr, x.c1);
    lemma_v2_zero_laws(p, nr, x.c2);
    lemma_v2_zero_laws(p, nr, nr2);
    lemma_v2_mul_valid(p, nr, x.c0, u);
    lemma_v2_mul_valid(p, nr, x.c1, u);
    lemma_v2_mul_valid(p, nr, x.c2, u);
    lemma_v2_zero_laws(p, nr, v2_mul(p, nr, x.c0, u));
    lemma_v2_zero_laws(p, nr, v2_mul(p, nr, x.c1, u));
    lemma_v2_zero_laws(p, nr, v2_mul(p, nr, x.c2, u));
    lemma_v2_mul_valid(p, nr, nr2, v2_zero());
    lemma_v2_zero_laws(p, nr, v2_mul(p, nr, nr2, v2_zero()));
    lemma_v2_add_valid(p, v2_zero(), v2_zero());
    lemma_v2_zero_laws(p, nr, v2_add(p, v2_zero(), v2_zero()));
    assert(v2_add(p, v2_zero(), v2_zero()) == v2_zero()) by {
        lemma_small_mod(0nat, p as nat);
    }
}

} // verus!
