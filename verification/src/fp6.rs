//! The cubic extension over the quadratic one: an element is a triple
//! `c0 + c1 Y + c2 Y^2` of quadratic-extension values with `Y^3` a
//! configured nonresidue pair. Multiplication is schoolbook with the
//! nonresidue reduction, and the sparse products the top level leans on
//! are proved equal to the full product with the zero coordinates.

use vstd::prelude::*;
use crate::arith::fmul;
use crate::fp::{Fp, FpParams};
use crate::fp2::{Fp2, Fp2Parameters, fp2_v, fp2_inv, lemma_fp2_v_valid};
use crate::towerspec::{
    V2, V6, v2_zero, v2_add, v2_mul, v6_valid, v6_add, v6_sub, v6_mul,
    v6_scale, v6_scale_fp, lemma_v2_zero_laws, lemma_v2_mul_valid,
    lemma_v2_add_valid,
};

verus! {

/// The parameter set of the cubic extension: the quadratic level under it,
/// the nonresidue pair that `Y^3` equals, and the two Frobenius tables.
pub struct Fp6Parameters {
    /// The quadratic extension this level is built on.
    pub fp2: Fp2Parameters,
    /// The cube nonresidue `Y^3`, a quadratic-extension value.
    pub nonresidue: Fp2,
    /// What the `p^i`-power map multiplies the `Y` coordinate by.
    pub frobenius_coeff_c1: Vec<Fp2>,
    /// What the `p^i`-power map multiplies the `Y^2` coordinate by.
    pub frobenius_coeff_c2: Vec<Fp2>,
}

impl Fp6Parameters {
    /// Everything the cubic level's proofs need of the parameter set.
    pub open spec fn wf(self) -> bool {
        &&& self.fp2.wf()
        &&& fp2_inv(self.nonresidue, self.fp2.fp)
        &&& fp2_v(self.nonresidue, self.fp2.fp) != v2_zero()
        &&& self.frobenius_coeff_c1@.len() == 6
        &&& self.frobenius_coeff_c2@.len() == 6
        &&& forall|i: int|
            0 <= i < 6 ==> fp2_inv(#[trigger] self.frobenius_coeff_c1@[i], self.fp2.fp)
        &&& forall|i: int|
            0 <= i < 6 ==> fp2_inv(#[trigger] self.frobenius_coeff_c2@[i], self.fp2.fp)
        &&& fp2_v(self.frobenius_coeff_c1@[0], self.fp2.fp) == (V2 { c0: 1, c1: 0 })
        &&& fp2_v(self.frobenius_coeff_c2@[0], self.fp2.fp) == (V2 { c0: 1, c1: 0 })
    }

    /// The base modulus.
    pub open spec fn p(self) -> int {
        self.fp2.fp.modulus as int
    }

    /// The base-level nonresidue.
    pub open spec fn nr(self) -> int {
        self.fp2.nr()
    }

    /// The cube nonresidue, as the model sees it.
    pub open spec fn nr2(self) -> V2 {
        fp2_v(self.nonresidue, self.fp2.fp)
    }

    /// The first Frobenius table entry selected by a power.
    pub open spec fn frob_c1(self, power: nat) -> V2 {
        fp2_v(self.frobenius_coeff_c1@[(power % 6) as int], self.fp2.fp)
    }

    /// The second Frobenius table entry selected by a power.
    pub open spec fn frob_c2(self, power: nat) -> V2 {
        fp2_v(self.frobenius_coeff_c2@[(power % 6) as int], self.fp2.fp)
    }

    /// Assemble the cubic level's parameters, validating the nonresidue
    /// and both six-entry Frobenius tables; it succeeds exactly when the
    /// nonresidue is a valid nonzero pair and both tables are six valid
    /// entries opening with one.
    pub fn new(fp2: Fp2Parameters, nonresidue: Fp2, frob_c1: Vec<Fp2>, frob_c2: Vec<Fp2>) -> (r:
        Option<Fp6Parameters>)
        requires
            fp2.wf(),
        ensures
            match r {
                Some(pp6) => pp6.wf() && pp6.fp2 == fp2 && fp2_v(pp6.nonresidue, fp2.fp) == fp2_v(
                    nonresidue,
                    fp2.fp,
                ),
                None => true,
            },
            (r is Some) <==> ({
                &&& fp2_inv(nonresidue, fp2.fp)
                &&& fp2_v(nonresidue, fp2.fp) != v2_zero()
                &&& frob_c1@.len() == 6
                &&& frob_c2@.len() == 6
                &&& (forall|i: int| 0 <= i < 6 ==> fp2_inv(#[trigger] frob_c1@[i], fp2.fp))
                &&& (forall|i: int| 0 <= i < 6 ==> fp2_inv(#[trigger] frob_c2@[i], fp2.fp))
                &&& frob_c1@[0] == (Fp2 { c0: Fp { repr: fp2.fp.r }, c1: Fp { repr: 0 } })
                &&& frob_c2@[0] == (Fp2 { c0: Fp { repr: fp2.fp.r }, c1: Fp { repr: 0 } })
            }),
    {
        if !nonresidue.c0.is_valid(&fp2.fp) || !nonresidue.c1.is_valid(&fp2.fp) {
            return None;
        }
        if nonresidue.is_zero(&fp2) {
            return None;
        }
        if frob_c1.len() != 6 || frob_c2.len() != 6 {
            return None;
        }
        let mut i: usize = 0;
        while i < 6
            invariant
                fp2.wf(),
                i <= 6,
                frob_c1@.len() == 6,
                frob_c2@.len() == 6,
                forall|j: int| 0 <= j < i ==> fp2_inv(#[trigger] frob_c1@[j], fp2.fp),
                forall|j: int| 0 <= j < i ==> fp2_inv(#[trigger] frob_c2@[j], fp2.fp),
            decreases 6 - i,
        {
            if !frob_c1[i].c0.is_valid(&fp2.fp) || !frob_c1[i].c1.is_valid(&fp2.fp) {
                return None;
            }
            if !frob_c2[i].c0.is_valid(&fp2.fp) || !frob_c2[i].c1.is_valid(&fp2.fp) {
                return None;
            }
            i = i + 1;
        }
        let one = Fp2::one(&fp2);
        if !(frob_c1[0] == one) || !(frob_c2[0] == one) {
            return None;
        }
        Some(Fp6Parameters { fp2, nonresidue, frobenius_coeff_c1: frob_c1, frobenius_coeff_c2: frob_c2 })
    }

    /// Multiplying a quadratic-extension value by this level's nonresidue.
    pub fn mul_fp2_by_nonresidue(&self, fe: &Fp2) -> (r: Fp2)
        requires
            self.wf(),
            fp2_inv(*fe, self.fp2.fp),
        ensures
            fp2_inv(r, self.fp2.fp),
            fp2_v(r, self.fp2.fp) == v2_mul(self.p(), self.nr(), self.nr2(), fp2_v(*fe, self.fp2.fp)),
    {
        self.nonresidue.mul(fe, &self.fp2)
    }
}

/// One element of the cubic extension.
#[derive(Clone, Copy, PartialEq, Eq, Structural, Debug)]
pub struct Fp6 {
    /// The constant coordinate.
    pub c0: Fp2,
    /// The `Y` coordinate.
    pub c1: Fp2,
    /// The `Y^2` coordinate.
    pub c2: Fp2,
}

/// The model value of a cubic-extension element.
pub open spec fn fp6_v(e: Fp6, pp: FpParams) -> V6 {
    V6 { c0: fp2_v(e.c0, pp), c1: fp2_v(e.c1, pp), c2: fp2_v(e.c2, pp) }
}

/// All six coordinates are stored reduced.
pub open spec fn fp6_inv(e: Fp6, pp: FpParams) -> bool {
    fp2_inv(e.c0, pp) && fp2_inv(e.c1, pp) && fp2_inv(e.c2, pp)
}

/// The model value of an element is always canonical.
pub proof fn lemma_fp6_v_valid(e: Fp6, pp: FpParams)
    requires
        pp.wf(),
    ensures
        v6_valid(pp.modulus as int, fp6_v(e, pp)),
{
    lemma_fp2_v_valid(e.c0, pp);
    lemma_fp2_v_valid(e.c1, pp);
    lemma_fp2_v_valid(e.c2, pp);
}

impl Fp6 {
    /// The all-zero triple, as the model sees it.
    pub open spec fn spec_zero() -> Fp6 {
        Fp6 {
            c0: Fp2 { c0: Fp { repr: 0 }, c1: Fp { repr: 0 } },
            c1: Fp2 { c0: Fp { repr: 0 }, c1: Fp { repr: 0 } },
            c2: Fp2 { c0: Fp { repr: 0 }, c1: Fp { repr: 0 } },
        }
    }

    /// Gather three quadratic-extension values.
    pub fn new(c0: Fp2, c1: Fp2, c2: Fp2) -> (r: Fp6)
        ensures
            r.c0 == c0,
            r.c1 == c1,
            r.c2 == c2,
    {
        Fp6 { c0, c1, c2 }
    }

    /// The additive identity.
    pub fn zero() -> (r: Fp6)
        ensures
            r.c0 == (Fp2 { c0: Fp { repr: 0 }, c1: Fp { repr: 0 } }),
            r.c1 == (Fp2 { c0: Fp { repr: 0 }, c1: Fp { repr: 0 } }),
            r.c2 == (Fp2 { c0: Fp { repr: 0 }, c1: Fp { repr: 0 } }),
    {
        Fp6 { c0: Fp2::zero(), c1: Fp2::zero(), c2: Fp2::zero() }
    }

    /// Component-wise addition.
    pub fn add(&self, other: &Fp6, pp6: &Fp6Parameters) -> (r: Fp6)
        requires
            pp6.wf(),
            fp6_inv(*self, pp6.fp2.fp),
            fp6_inv(*other, pp6.fp2.fp),
        ensures
            fp6_inv(r, pp6.fp2.fp),
            fp6_v(r, pp6.fp2.fp) == v6_add(pp6.p(), fp6_v(*self, pp6.fp2.fp), fp6_v(*other, pp6.fp2.fp)),
    {
        Fp6 {
            c0: self.c0.add(&other.c0, &pp6.fp2),
            c1: self.c1.add(&other.c1, &pp6.fp2),
            c2: self.c2.add(&other.c2, &pp6.fp2),
        }
    }

    /// Component-wise subtraction.
    pub fn sub(&self, other: &Fp6, pp6: &Fp6Parameters) -> (r: Fp6)
        requires
            pp6.wf(),
            fp6_inv(*self, pp6.fp2.fp),
            fp6_inv(*other, pp6.fp2.fp),
        ensures
            fp6_inv(r, pp6.fp2.fp),
            fp6_v(r, pp6.fp2.fp) == v6_sub(pp6.p(), fp6_v(*self, pp6.fp2.fp), fp6_v(*other, pp6.fp2.fp)),
    {
        Fp6 {
            c0: self.c0.sub(&other.c0, &pp6.fp2),
            c1: self.c1.sub(&other.c1, &pp6.fp2),
            c2: self.c2.sub(&other.c2, &pp6.fp2),
        }
    }

    /// The full schoolbook product with the cube-nonresidue reduction.
    pub fn mul(&self, other: &Fp6, pp6: &Fp6Parameters) -> (r: Fp6)
        requires
            pp6.wf(),
            fp6_inv(*self, pp6.fp2.fp),
            fp6_inv(*other, pp6.fp2.fp),
        ensures
            fp6_inv(r, pp6.fp2.fp),
            fp6_v(r, pp6.fp2.fp) == v6_mul(
                pp6.p(),
                pp6.nr(),
                pp6.nr2(),
                fp6_v(*self, pp6.fp2.fp),
                fp6_v(*other, pp6.fp2.fp),
            ),
    {
        let fp2 = &pp6.fp2;
        let a0b0 = self.c0.mul(&other.c0, fp2);
        let a0b1 = self.c0.mul(&other.c1, fp2);
        let a0b2 = self.c0.mul(&other.c2, fp2);
        let a1b0 = self.c1.mul(&other.c0, fp2);
        let a1b1 = self.c1.mul(&other.c1, fp2);
        let a1b2 = self.c1.mul(&other.c2, fp2);
        let a2b0 = self.c2.mul(&other.c0, fp2);
        let a2b1 = self.c2.mul(&other.c1, fp2);
        let a2b2 = self.c2.mul(&other.c2, fp2);
        let c0 = a0b0.add(&pp6.mul_fp2_by_nonresidue(&a1b2.add(&a2b1, fp2)), fp2);
        let c1 = a0b1.add(&a1b0, fp2).add(&pp6.mul_fp2_by_nonresidue(&a2b2), fp2);
        let c2 = a0b2.add(&a1b1, fp2).add(&a2b0, fp2);
        proof {
            // the nonresidue scaling of a sum is the scaled sum
            let p = pp6.p();
            let nr = pp6.nr();
            let s = fp6_v(*self, pp6.fp2.fp);
            let o = fp6_v(*other, pp6.fp2.fp);
            lemma_fp6_v_valid(*self, pp6.fp2.fp);
            lemma_fp6_v_valid(*other, pp6.fp2.fp);
            crate::towerspec::lemma_v2_mul_add_right(
                p,
                nr,
                v2_mul(p, nr, s.c1, o.c2),
                v2_mul(p, nr, s.c2, o.c1),
                pp6.nr2(),
            );
        }
        Fp6 { c0, c1, c2 }
    }

    /// The sparse product with an element whose `Y^2` coordinate is zero,
    /// equal to the full product with that zero written in.
    pub fn mul_by_01(&mut self, c0: &Fp2, c1: &Fp2, pp6: &Fp6Parameters)
        requires
            pp6.wf(),
            fp6_inv(*old(self), pp6.fp2.fp),
            fp2_inv(*c0, pp6.fp2.fp),
            fp2_inv(*c1, pp6.fp2.fp),
        ensures
            fp6_inv(*final(self), pp6.fp2.fp),
            fp6_v(*final(self), pp6.fp2.fp) == v6_mul(
                pp6.p(),
                pp6.nr(),
                pp6.nr2(),
                fp6_v(*old(self), pp6.fp2.fp),
                V6 { c0: fp2_v(*c0, pp6.fp2.fp), c1: fp2_v(*c1, pp6.fp2.fp), c2: v2_zero() },
            ),
    {
        let fp2 = &pp6.fp2;
        let ghost p = pp6.p();
        let ghost nr = pp6.nr();
        let ghost x = fp6_v(*old(self), pp6.fp2.fp);
        let ghost u = fp2_v(*c0, pp6.fp2.fp);
        let ghost v = fp2_v(*c1, pp6.fp2.fp);
        let x0u = self.c0.mul(c0, fp2);
        let x0v = self.c0.mul(c1, fp2);
        let x1u = self.c1.mul(c0, fp2);
        let x1v = self.c1.mul(c1, fp2);
        let x2u = self.c2.mul(c0, fp2);
        let x2v = self.c2.mul(c1, fp2);
        let r0 = x0u.add(&pp6.mul_fp2_by_nonresidue(&x2v), fp2);
        let r1 = x0v.add(&x1u, fp2);
        let r2 = x1v.add(&x2u, fp2);
        proof {
            lemma_fp6_v_valid(*old(self), pp6.fp2.fp);
            lemma_fp2_v_valid(*c0, pp6.fp2.fp);
            lemma_fp2_v_valid(*c1, pp6.fp2.fp);
            lemma_v2_mul_valid(p, nr, x.c1, v);
            lemma_v2_mul_valid(p, nr, x.c2, v);
            lemma_v2_mul_valid(p, nr, x.c0, v);
            lemma_v2_mul_valid(p, nr, x.c1, u);
            lemma_v2_mul_valid(p, nr, x.c2, u);
            lemma_v2_zero_laws(p, nr, x.c0);
            lemma_v2_zero_laws(p, nr, x.c1);
            lemma_v2_zero_laws(p, nr, x.c2);
            lemma_v2_zero_laws(p, nr, v2_mul(p, nr, x.c2, v));
            lemma_v2_zero_laws(p, nr, v2_mul(p, nr, x.c1, v));
            lemma_v2_zero_laws(p, nr, pp6.nr2());
            lemma_v2_mul_valid(p, nr, pp6.nr2(), v2_zero());
            // the vanished products collapse each coordinate
            lemma_v2_zero_laws(
                p,
                nr,
                v2_add(p, v2_mul(p, nr, x.c0, v), v2_mul(p, nr, x.c1, u)),
            );
            lemma_v2_add_valid(p, v2_mul(p, nr, x.c0, v), v2_mul(p, nr, x.c1, u));
        }
        self.c0 = r0;
        self.c1 = r1;
        self.c2 = r2;
    }

    /// The sparse product with an element whose only nonzero coordinate is
    /// the `Y` one.
    pub fn mul_by_1(&mut self, c1: &Fp2, pp6: &Fp6Parameters)
        requires
            pp6.wf(),
            fp6_inv(*old(self), pp6.fp2.fp),
            fp2_inv(*c1, pp6.fp2.fp),
        ensures
            fp6_inv(*final(self), pp6.fp2.fp),
            fp6_v(*final(self), pp6.fp2.fp) == v6_mul(
                pp6.p(),
                pp6.nr(),
                pp6.nr2(),
                fp6_v(*old(self), pp6.fp2.fp),
                V6 { c0: v2_zero(), c1: fp2_v(*c1, pp6.fp2.fp), c2: v2_zero() },
            ),
    {
        let fp2 = &pp6.fp2;
        let ghost p = pp6.p();
        let ghost nr = pp6.nr();
        let ghost x = fp6_v(*old(self), pp6.fp2.fp);
        let ghost v = fp2_v(*c1, pp6.fp2.fp);
        let x0v = self.c0.mul(c1, fp2);
        let x1v = self.c1.mul(c1, fp2);
        let x2v = self.c2.mul(c1, fp2);
        let r0 = pp6.mul_fp2_by_nonresidue(&x2v);
        let r1 = x0v;
        let r2 = x1v;
        proof {
            lemma_fp6_v_valid(*old(self), pp6.fp2.fp);
            lemma_fp2_v_valid(*c1, pp6.fp2.fp);
            lemma_v2_mul_valid(p, nr, x.c0, v);
            lemma_v2_mul_valid(p, nr, x.c1, v);
            lemma_v2_mul_valid(p, nr, x.c2, v);
            lemma_v2_zero_laws(p, nr, x.c0);
            lemma_v2_zero_laws(p, nr, x.c1);
            lemma_v2_zero_laws(p, nr, x.c2);
            lemma_v2_zero_laws(p, nr, v2_mul(p, nr, x.c2, v));
            lemma_v2_zero_laws(p, nr, v2_mul(p, nr, x.c0, v));
            lemma_v2_zero_laws(p, nr, v2_mul(p, nr, x.c1, v));
            lemma_v2_zero_laws(p, nr, pp6.nr2());
            lemma_v2_mul_valid(p, nr, pp6.nr2(), v2_mul(p, nr, x.c2, v));
            lemma_v2_mul_valid(p, nr, pp6.nr2(), v2_zero());
            lemma_v2_zero_laws(p, nr, v2_mul(p, nr, pp6.nr2(), v2_mul(p, nr, x.c2, v)));
        }
        self.c0 = r0;
        self.c1 = r1;
        self.c2 = r2;
    }

    /// Scaling all coordinates by a base-field element.
    pub fn mul_by_fp(&self, k: &Fp, pp6: &Fp6Parameters) -> (r: Fp6)
        requires
            pp6.wf(),
            fp6_inv(*self, pp6.fp2.fp),
            k.inv_holds(pp6.fp2.fp),
        ensures
            fp6_inv(r, pp6.fp2.fp),
            fp6_v(r, pp6.fp2.fp) == v6_scale_fp(pp6.p(), fp6_v(*self, pp6.fp2.fp), k.abs(pp6.fp2.fp)),
    {
        Fp6 {
            c0: self.c0.mul_by_fp(k, &pp6.fp2),
            c1: self.c1.mul_by_fp(k, &pp6.fp2),
            c2: self.c2.mul_by_fp(k, &pp6.fp2),
        }
    }

    /// Scaling all coordinates by a quadratic-extension value.
    pub fn mul_assign_by_fp2(&mut self, k: Fp2, pp6: &Fp6Parameters)
        requires
            pp6.wf(),
            fp6_inv(*old(self), pp6.fp2.fp),
            fp2_inv(k, pp6.fp2.fp),
        ensures
            fp6_inv(*final(self), pp6.fp2.fp),
            fp6_v(*final(self), pp6.fp2.fp) == v6_scale(
                pp6.p(),
                pp6.nr(),
                fp6_v(*old(self), pp6.fp2.fp),
                fp2_v(k, pp6.fp2.fp),
            ),
    {
        let fp2 = &pp6.fp2;
        self.c0 = self.c0.mul(&k, fp2);
        self.c1 = self.c1.mul(&k, fp2);
        self.c2 = self.c2.mul(&k, fp2);
    }

    /// The `p^power`-power map: the base map on every coordinate, then the
    /// two table coefficients on the `Y` and `Y^2` coordinates.
    pub fn frobenius_map(&mut self, power: usize, pp6: &Fp6Parameters)
        requires
            pp6.wf(),
            fp6_inv(*old(self), pp6.fp2.fp),
        ensures
            fp6_inv(*final(self), pp6.fp2.fp),
            fp6_v(*final(self), pp6.fp2.fp) == frob6_v(
                *pp6,
                fp6_v(*old(self), pp6.fp2.fp),
                power as nat,
            ),
    {
        let fp2 = &pp6.fp2;
        self.c0.frobenius_map(power, fp2);
        self.c1.frobenius_map(power, fp2);
        self.c2.frobenius_map(power, fp2);
        let idx = power % 6;
        self.c1 = self.c1.mul(&pp6.frobenius_coeff_c1[idx], fp2);
        self.c2 = self.c2.mul(&pp6.frobenius_coeff_c2[idx], fp2);
    }
}

/// The base quadratic-level Frobenius on a model pair.
pub open spec fn frob2_v(pp2: Fp2Parameters, x: V2, power: nat) -> V2 {
    V2 { c0: x.c0, c1: fmul(pp2.fp.modulus as int, x.c1, pp2.frob_coeff(power)) }
}

/// The cubic-level Frobenius on a model triple: the base map on each
/// coordinate and the two table coefficients on the upper coordinates.
pub open spec fn frob6_v(pp6: Fp6Parameters, x: V6, power: nat) -> V6 {
    V6 {
        c0: frob2_v(pp6.fp2, x.c0, power),
        c1: v2_mul(pp6.p(), pp6.nr(), frob2_v(pp6.fp2, x.c1, power), pp6.frob_c1(power)),
        c2: v2_mul(pp6.p(), pp6.nr(), frob2_v(pp6.fp2, x.c2, power), pp6.frob_c2(power)),
    }
}

} // verus!
