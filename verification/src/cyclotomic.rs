//! The cyclotomic-subgroup squaring of the top-level extension: the
//! Granger–Scott recombination applies whenever the square of the field
//! characteristic is one modulo six, a condition decided from the
//! characteristic's limbs by an alternating bit sum modulo three together
//! with a parity test.

use vstd::prelude::*;
use vstd::arithmetic::div_mod::{
    lemma_add_mod_noop_right, lemma_fundamental_div_mod, lemma_mod_multiples_vanish,
    lemma_mul_mod_noop, lemma_mul_mod_noop_right, lemma_small_mod,
};
use crate::arith::{lemma_f_bound, lemma_f_small};
use crate::fp::{Fp, two_pow, lemma_two_pow_64, lemma_two_pow_adds};
use crate::biginteger::{prefix_val, limbs_val, lemma_prefix_nonneg, lemma_prefix_parity};
use crate::fp6::{Fp6, fp6_v, fp6_inv};
use crate::fp12::{Fp12, Fp12Parameters, fp12_v, fp12_inv};
use crate::towerspec::{V2, V6, V12, v2_add, v2_sub, v2_mul, v6_scale, v12_mul};

verus! {

/// A power of two modulo three alternates between one and two.
proof fn lemma_two_pow_mod3(k: nat)
    ensures
        two_pow(k) % 3 == if k % 2 == 0 {
            1int
        } else {
            2int
        },
    decreases k,
{
    if k > 0 {
        lemma_two_pow_mod3((k - 1) as nat);
        let prev = two_pow((k - 1) as nat);
        assert(two_pow(k) == 2 * prev);
        lemma_mul_mod_noop_right(2, prev, 3);
        if (k - 1) % 2 == 0 {
            assert((2 * prev) % 3 == (2 * 1) % 3) by {
                lemma_mul_mod_noop_right(2, prev, 3);
            }
        } else {
            assert((2 * prev) % 3 == (2 * 2) % 3) by {
                lemma_mul_mod_noop_right(2, prev, 3);
            }
        }
    }
}

/// Whether the characteristic of a field, given as little-endian limbs,
/// has a square that is one modulo six: equivalently, it is odd and not a
/// multiple of three. The residue modulo three comes from an alternating
/// bit sum, since two is its own inverse modulo three.
pub fn characteristic_square_mod_6_is_one(characteristic: &[u64]) -> (r: bool)
    requires
        characteristic@.len() >= 1,
    ensures
        r == (limbs_val(characteristic@) % 2 == 1 && limbs_val(characteristic@) % 3 != 0),
        r == ((limbs_val(characteristic@) * limbs_val(characteristic@)) % 6 == 1),
{
    let ghost s = characteristic@;
    let n = characteristic.len();
    let mut acc: u64 = 0;
    let mut j: usize = 0;
    while j < n
        invariant
            s == characteristic@,
            n == s.len(),
            j <= n,
            acc < 3,
            acc as int == prefix_val(s, j as int) % 3,
        decreases n - j,
    {
        let limb = characteristic[j];
        let ghost pre = prefix_val(s, j as int);
        let ghost weight = two_pow((64 * j) as nat);
        let mut cur = limb;
        let mut i: u64 = 0;
        let ghost mut lowt: int = 0;
        proof {
            assert(limb == lowt + cur * two_pow(0)) by {
                assert(cur * 1 == cur) by (nonlinear_arith);
            }
            lemma_f_bound(3, pre);
            assert((pre + 0 * weight) % 3 == pre % 3) by {
                assert(0 * weight == 0) by (nonlinear_arith);
            }
        }
        while i < 64
            invariant
                i <= 64,
                acc < 3,
                0 <= lowt,
                lowt < two_pow(i as nat),
                limb == lowt + cur * two_pow(i as nat),
                weight == two_pow((64 * j) as nat),
                pre == prefix_val(s, j as int),
                acc as int == (pre + lowt * weight) % 3,
                cur >= 0,
            decreases 64 - i,
        {
            let bit = cur % 2;
            let w: u64 = if i % 2 == 0 {
                bit
            } else {
                2 * bit
            };
            proof {
                let iv = i as nat;
                let bi = bit as int;
                let curv = cur as int;
                let tp = two_pow(iv);
                lemma_fundamental_div_mod(curv, 2);
                // peeling the lowest bit of the cursor
                assert(limb == (lowt + bi * tp) + (curv / 2) * two_pow((iv + 1) as nat)) by {
                    assert(two_pow((iv + 1) as nat) == 2 * tp);
                    assert((lowt + bi * tp) + (curv / 2) * (2 * tp) == lowt + (2 * (curv / 2) + bi)
                        * tp) by (nonlinear_arith);
                }
                assert(lowt + bi * tp < two_pow((iv + 1) as nat)) by {
                    assert(two_pow((iv + 1) as nat) == 2 * tp);
                    assert(bi * tp <= 1 * tp) by (nonlinear_arith)
                        requires
                            bi <= 1,
                            tp >= 0,
                    ;
                    assert(1 * tp == tp) by (nonlinear_arith);
                }
                // the bit's weight modulo three is the alternating weight
                lemma_two_pow_adds(iv, (64 * j) as nat);
                let k = iv + (64 * j) as nat;
                lemma_two_pow_mod3(k);
                assert(k % 2 == iv % 2) by {
                    lemma_mod_multiples_vanish(32 * (j as int), iv as int, 2);
                    assert(2 * (32 * (j as int)) + iv as int == k as int);
                    lemma_small_mod(iv % 2, 2);
                }
                assert((bi * two_pow(k)) % 3 == (w as int) % 3) by {
                    lemma_mul_mod_noop_right(bi, two_pow(k), 3);
                    if iv % 2 == 0 {
                        assert(bi * 1 == bi) by (nonlinear_arith);
                        lemma_mul_mod_noop_right(bi, 1, 3);
                        lemma_f_small(3, bi);
                    } else {
                        lemma_mul_mod_noop_right(bi, 2, 3);
                        lemma_f_small(3, bi * 2);
                        assert(bi * 2 == 2 * bi) by (nonlinear_arith);
                    }
                }
                // folding the bit into the running residue
                let base = pre + lowt * weight;
                assert(((acc + w) as int) % 3 == (base + bi * two_pow(k)) % 3) by {
                    lemma_add_mod_noop_right(base, bi * two_pow(k), 3);
                    lemma_add_mod_noop_right(base, w as int, 3);
                    lemma_f_small(3, acc as int);
                    vstd::arithmetic::div_mod::lemma_add_mod_noop(base, w as int, 3);
                    lemma_f_small(3, w as int % 3);
                    vstd::arithmetic::div_mod::lemma_mod_twice(w as int, 3);
                }
                assert(base + bi * two_pow(k) == pre + (lowt + bi * tp) * weight) by {
                    assert(bi * (tp * weight) == (bi * tp) * weight) by (nonlinear_arith);
                    assert((lowt + bi * tp) * weight == lowt * weight + (bi * tp) * weight)
                        by (nonlinear_arith);
                }
                lowt = lowt + bi * tp;
            }
            acc = (acc + w) % 3;
            cur = cur / 2;
            i = i + 1;
        }
        proof {
            // the cursor is exhausted: all bits of the limb were folded in
            lemma_two_pow_64();
            assert(cur as int == 0) by (nonlinear_arith)
                requires
                    limb as int == lowt + (cur as int) * two_pow(64),
                    0 <= lowt,
                    limb < two_pow(64),
                    cur >= 0,
                    two_pow(64) > 0,
            ;
            assert(lowt == limb as int);
            assert(prefix_val(s, j as int + 1) == pre + s[j as int] * weight);
        }
        j = j + 1;
    }
    let odd = characteristic[0] % 2 == 1;
    proof {
        lemma_prefix_parity(s, s.len() as int);
        lemma_prefix_nonneg(s, s.len() as int);
        lemma_gate_square(limbs_val(s));
    }
    (acc != 0) && odd
}

/// Being odd and prime to three is exactly having a square that is one
/// modulo six.
proof fn lemma_gate_square(v: int)
    requires
        v >= 0,
    ensures
        (v % 2 == 1 && v % 3 != 0) == ((v * v) % 6 == 1),
{
    let r = v % 6;
    lemma_fundamental_div_mod(v, 6);
    let q = v / 6;
    lemma_f_bound(6, v);
    assert(v % 2 == r % 2) by {
        assert(v == 2 * (3 * q) + r) by (nonlinear_arith)
            requires
                v == 6 * q + r,
        ;
        lemma_mod_multiples_vanish(3 * q, r, 2);
    }
    assert(v % 3 == r % 3) by {
        assert(v == 3 * (2 * q) + r) by (nonlinear_arith)
            requires
                v == 6 * q + r,
        ;
        lemma_mod_multiples_vanish(2 * q, r, 3);
    }
    assert((v * v) % 6 == (r * r) % 6) by {
        lemma_mul_mod_noop(v, v, 6);
    }
    if r == 0 {
    } else if r == 1 {
    } else if r == 2 {
    } else if r == 3 {
    } else if r == 4 {
    } else {
        assert(r == 5);
        assert((5 * 5) % 6 == 1);
    }
}

/// The Granger–Scott cyclotomic squaring, written over the model: three
/// complex squarings of the paired coordinates, then fixed doublings and
/// recombinations with one nonresidue scaling.
pub open spec fn gs_square(p: int, nr: int, nr2: V2, x: V12) -> V12 {
    let z0 = x.c0.c0;
    let z4 = x.c0.c1;
    let z3 = x.c0.c2;
    let z2 = x.c1.c0;
    let z1 = x.c1.c1;
    let z5 = x.c1.c2;
    let tmp0 = v2_mul(p, nr, z0, z1);
    let t0 = v2_sub(
        p,
        v2_sub(
            p,
            v2_mul(p, nr, v2_add(p, z0, z1), v2_add(p, z0, v2_mul(p, nr, nr2, z1))),
            tmp0,
        ),
        v2_mul(p, nr, nr2, tmp0),
    );
    let t1 = v2_add(p, tmp0, tmp0);
    let tmp1 = v2_mul(p, nr, z2, z3);
    let t2 = v2_sub(
        p,
        v2_sub(
            p,
            v2_mul(p, nr, v2_add(p, z2, z3), v2_add(p, z2, v2_mul(p, nr, nr2, z3))),
            tmp1,
        ),
        v2_mul(p, nr, nr2, tmp1),
    );
    let t3 = v2_add(p, tmp1, tmp1);
    let tmp2 = v2_mul(p, nr, z4, z5);
    let t4 = v2_sub(
        p,
        v2_sub(
            p,
            v2_mul(p, nr, v2_add(p, z4, z5), v2_add(p, z4, v2_mul(p, nr, nr2, z5))),
            tmp2,
        ),
        v2_mul(p, nr, nr2, tmp2),
    );
    let t5 = v2_add(p, tmp2, tmp2);
    let g0 = v2_sub(p, t0, z0);
    let g1 = v2_add(p, t1, z1);
    let nt5 = v2_mul(p, nr, nr2, t5);
    let g2 = v2_add(p, nt5, z2);
    let g3 = v2_sub(p, t4, z3);
    let g4 = v2_sub(p, t2, z4);
    let g5 = v2_add(p, t3, z5);
    V12 {
        c0: V6 {
            c0: v2_add(p, v2_add(p, g0, g0), t0),
            c1: v2_add(p, v2_add(p, g4, g4), t2),
            c2: v2_add(p, v2_add(p, g3, g3), t4),
        },
        c1: V6 {
            c0: v2_add(p, v2_add(p, g2, g2), nt5),
            c1: v2_add(p, v2_add(p, g1, g1), t1),
            c2: v2_add(p, v2_add(p, g5, g5), t3),
        },
    }
}

/// The engine-level adapter of the top extension's parameters, carrying
/// the operations the generic quadratic engine asks of its base field.
pub struct Fp12ParamsWrapper {
    /// The wrapped parameter set.
    pub params: Fp12Parameters,
}

impl Fp12ParamsWrapper {
    /// The wrapped set is well formed.
    pub open spec fn wf(self) -> bool {
        self.params.wf()
    }

    /// Multiplying a base-field (cubic-level) value by the nonresidue.
    pub fn mul_base_field_by_nonresidue(&self, fe: &Fp6) -> (r: Fp6)
        requires
            self.wf(),
            fp6_inv(*fe, self.params.fp6.fp2.fp),
        ensures
            fp6_inv(r, self.params.fp6.fp2.fp),
            fp6_v(r, self.params.fp6.fp2.fp) == crate::towerspec::v6_mul_by_nonresidue(
                self.params.p(),
                self.params.nr(),
                self.params.nr2(),
                fp6_v(*fe, self.params.fp6.fp2.fp),
            ),
    {
        self.params.mul_fp6_by_nonresidue(fe)
    }

    /// Scaling a base-field value by the Frobenius coefficient of a power.
    pub fn mul_base_field_by_frob_coeff(&self, fe: &mut Fp6, power: usize)
        requires
            self.wf(),
            fp6_inv(*old(fe), self.params.fp6.fp2.fp),
        ensures
            fp6_inv(*final(fe), self.params.fp6.fp2.fp),
            fp6_v(*final(fe), self.params.fp6.fp2.fp) == v6_scale(
                self.params.p(),
                self.params.nr(),
                fp6_v(*old(fe), self.params.fp6.fp2.fp),
                self.params.frob_c1(power as nat),
            ),
    {
        let idx = power % 12;
        let coeff = self.params.frobenius_coeff_c1[idx];
        fe.mul_assign_by_fp2(coeff, &self.params.fp6);
    }

    /// Squaring in the cyclotomic subgroup: when the characteristic's
    /// square is one modulo six the Granger–Scott recombination applies,
    /// else the generic square is taken.
    pub fn cyclotomic_square(&self, fe: &Fp12) -> (r: Fp12)
        requires
            self.wf(),
            fp12_inv(*fe, self.params.fp6.fp2.fp),
        ensures
            fp12_inv(r, self.params.fp6.fp2.fp),
            ({
                let p = self.params.p();
                let x = fp12_v(*fe, self.params.fp6.fp2.fp);
                if p % 2 == 1 && p % 3 != 0 {
                    fp12_v(r, self.params.fp6.fp2.fp) == gs_square(
                        p,
                        self.params.nr(),
                        self.params.nr2(),
                        x,
                    )
                } else {
                    fp12_v(r, self.params.fp6.fp2.fp) == v12_mul(
                        p,
                        self.params.nr(),
                        self.params.nr2(),
                        x,
                        x,
                    )
                }
            }),
    {
        let fp6 = &self.params.fp6;
        let fp2 = &self.params.fp6.fp2;
        let ch = characteristic(&self.params);
        let gate = characteristic_square_mod_6_is_one(ch.as_slice());
        proof {
            let s = ch@;
            assert(limbs_val(s) == self.params.fp6.fp2.fp.modulus as int) by {
                assert(prefix_val(s, 0) == 0);
        assert(prefix_val(s, 1) == 0 + s[0] * two_pow(0));
                assert(s[0] * 1 == s[0]) by (nonlinear_arith);
            }
        }
        if gate {
            let z0 = fe.c0.c0;
            let z4 = fe.c0.c1;
            let z3 = fe.c0.c2;
            let z2 = fe.c1.c0;
            let z1 = fe.c1.c1;
            let z5 = fe.c1.c2;
            let tmp0 = z0.mul(&z1, fp2);
            let t0 = z0.add(&z1, fp2).mul(&z0.add(&fp6.mul_fp2_by_nonresidue(&z1), fp2), fp2).sub(
                &tmp0,
                fp2,
            ).sub(&fp6.mul_fp2_by_nonresidue(&tmp0), fp2);
            let t1 = tmp0.double(fp2);
            let tmp1 = z2.mul(&z3, fp2);
            let t2 = z2.add(&z3, fp2).mul(&z2.add(&fp6.mul_fp2_by_nonresidue(&z3), fp2), fp2).sub(
                &tmp1,
                fp2,
            ).sub(&fp6.mul_fp2_by_nonresidue(&tmp1), fp2);
            let t3 = tmp1.double(fp2);
            let tmp2 = z4.mul(&z5, fp2);
            let t4 = z4.add(&z5, fp2).mul(&z4.add(&fp6.mul_fp2_by_nonresidue(&z5), fp2), fp2).sub(
                &tmp2,
                fp2,
            ).sub(&fp6.mul_fp2_by_nonresidue(&tmp2), fp2);
            let t5 = tmp2.double(fp2);
            let g0 = t0.sub(&z0, fp2);
            let out00 = g0.double(fp2).add(&t0, fp2);
            let g1 = t1.add(&z1, fp2);
            let out11 = g1.double(fp2).add(&t1, fp2);
            let nt5 = fp6.mul_fp2_by_nonresidue(&t5);
            let g2 = nt5.add(&z2, fp2);
            let out10 = g2.double(fp2).add(&nt5, fp2);
            let g3 = t4.sub(&z3, fp2);
            let out02 = g3.double(fp2).add(&t4, fp2);
            let g4 = t2.sub(&z4, fp2);
            let out01 = g4.double(fp2).add(&t2, fp2);
            let g5 = t3.add(&z5, fp2);
            let out12 = g5.double(fp2).add(&t3, fp2);
            Fp12::new(Fp6::new(out00, out01, out02), Fp6::new(out10, out11, out12))
        } else {
            fe.square(&self.params)
        }
    }
}

/// The characteristic of the top-level field: that of its prime subfield.
pub fn characteristic(pp12: &Fp12Parameters) -> (r: Vec<u64>)
    ensures
        r@.len() == 1,
        r@[0] == pp12.fp6.fp2.fp.modulus,
{
    Fp::characteristic(&pp12.fp6.fp2.fp)
}

} // verus!
