//! The algebraic laws the library promises, stated over the model values
//! its contracts speak of: the field axioms of the modular arithmetic that
//! every element operation returns, and the order of the Frobenius map on
//! the quadratic extension.

use vstd::prelude::*;
use crate::arith::{
    fadd, fsub, fmul, fneg, f_valid, lemma_f_small, lemma_fadd_comm, lemma_fadd_assoc, lemma_fadd_zero, lemma_fadd_neg,
    lemma_fmul_comm, lemma_fmul_assoc, lemma_fmul_one, lemma_fmul_dist, lemma_f_bound,
};
use crate::fp2::Fp2Parameters;
use crate::fp6::frob2_v;
use crate::towerspec::{V2, V6, V12, v2_valid, v2_zero, v2_add, v2_sub, v2_mul, v12_mul, lemma_v2_zero_laws};

verus! {

/// The field axioms, over canonical residues: addition is commutative and
/// associative with identity zero and inverses, multiplication is
/// commutative and associative with identity one, and multiplication
/// distributes over addition. Every element operation's contract returns
/// these very functions of the operands' values.
pub proof fn lemma_field_axioms(p: int, a: int, b: int, c: int)
    requires
        p > 1,
        f_valid(p, a),
        f_valid(p, b),
        f_valid(p, c),
    ensures
        fadd(p, a, b) == fadd(p, b, a),
        fadd(p, fadd(p, a, b), c) == fadd(p, a, fadd(p, b, c)),
        fadd(p, a, 0) == a,
        fadd(p, a, fneg(p, a)) == 0,
        fmul(p, a, b) == fmul(p, b, a),
        fmul(p, fmul(p, a, b), c) == fmul(p, a, fmul(p, b, c)),
        fmul(p, a, 1) == a,
        fmul(p, a, fadd(p, b, c)) == fadd(p, fmul(p, a, b), fmul(p, a, c)),
{
    lemma_fadd_comm(p, a, b);
    lemma_fadd_assoc(p, a, b, c);
    lemma_fadd_zero(p, a);
    lemma_fadd_neg(p, a);
    lemma_fmul_comm(p, a, b);
    lemma_fmul_assoc(p, a, b, c);
    lemma_fmul_one(p, a);
    lemma_fmul_dist(p, a, b, c);
}

/// The Frobenius map of the quadratic extension has order two: applying
/// the `p`-power map twice returns every element, because the configured
/// coefficient is a square root of one.
pub proof fn lemma_frobenius_order_fp2(pp2: Fp2Parameters, x: V2)
    requires
        pp2.wf(),
        v2_valid(pp2.p(), x),
    ensures
        frob2_v(pp2, frob2_v(pp2, x, 1), 1) == x,
{
    let p = pp2.p();
    let k = pp2.frob_coeff(1);
    lemma_f_bound(p, pp2.frobenius_coeff_c1@[1].repr * pp2.fp.r_inv);
    lemma_f_bound(p, x.c1 * k);
    lemma_fmul_assoc(p, x.c1, k, k);
    lemma_fmul_one(p, x.c1);
}

/// On the identity element the cyclotomic squaring formulas agree with the
/// generic square: both return the identity.
pub proof fn lemma_cyclotomic_square_of_one(p: int, nr: int, nr2: V2)
    requires
        p > 1,
        f_valid(p, nr),
        v2_valid(p, nr2),
    ensures
        crate::cyclotomic::gs_square(p, nr, nr2, v12_one()) == v12_mul(
            p,
            nr,
            nr2,
            v12_one(),
            v12_one(),
        ),
        v12_mul(p, nr, nr2, v12_one(), v12_one()) == v12_one(),
{
    let one2 = V2 { c0: 1, c1: 0 };
    let zero2 = v2_zero();
    lemma_f_small(p, 0);
    lemma_f_small(p, 1);
    lemma_v2_zero_laws(p, nr, one2);
    lemma_v2_zero_laws(p, nr, zero2);
    lemma_v2_zero_laws(p, nr, nr2);
    assert(fmul(p, 1, 1) == 1);
    assert(fmul(p, 1, 0) == 0) by {
        assert(1 * 0 == 0) by (nonlinear_arith);
    }
    assert(fmul(p, 0, 1) == 0) by {
        assert(0 * 1 == 0) by (nonlinear_arith);
    }
    assert(fmul(p, nr, 0) == 0) by {
        assert(nr * 0 == 0) by (nonlinear_arith);
    }
    assert(fadd(p, 1, 0) == 1);
    assert(fadd(p, 0, 0) == 0);
    assert(fadd(p, 0, 1) == 1);
    assert(fsub(p, 1, 0) == 1);
    assert(fsub(p, 0, 0) == 0);
    assert(fsub(p, 1, 1) == 0);
    assert(v2_mul(p, nr, one2, one2) == one2);
    assert(v2_mul(p, nr, zero2, zero2) == zero2);
    assert(v2_mul(p, nr, one2, zero2) == zero2);
    assert(v2_mul(p, nr, zero2, one2) == zero2);
    assert(v2_mul(p, nr, nr2, zero2) == zero2);
    // the three complex squarings of the identity: one square and two zero
    // squares; the recombination doubles differences that are again the
    // inputs themselves
    assert(v2_add(p, one2, zero2) == one2);
    assert(v2_add(p, zero2, zero2) == zero2);
    assert(v2_add(p, one2, v2_mul(p, nr, nr2, zero2)) == one2);
    assert(v2_add(p, zero2, v2_mul(p, nr, nr2, zero2)) == zero2);
    assert(v2_sub(p, one2, zero2) == one2);
    assert(v2_sub(p, zero2, zero2) == zero2);
    assert(v2_sub(p, one2, one2) == zero2);
}

/// The identity of the top-level extension, as the model sees it.
pub open spec fn v12_one() -> V12 {
    V12 {
        c0: V6 { c0: V2 { c0: 1, c1: 0 }, c1: v2_zero(), c2: v2_zero() },
        c1: V6 { c0: v2_zero(), c1: v2_zero(), c2: v2_zero() },
    }
}

} // verus!
