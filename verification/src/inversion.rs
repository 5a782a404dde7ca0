//! Field inversion by the binary extended Euclidean algorithm: two integer
//! cursors are halved and subtracted down to one while two field cofactors
//! mirror every move, so that the surviving cofactor is the inverse. The
//! loop terminates because the cursors' sum shrinks, and it cannot strand
//! both cursors above one because they stay coprime.

use vstd::prelude::*;
use vstd::arithmetic::div_mod::{
    lemma_fundamental_div_mod, lemma_mod_multiples_basic, lemma_mod_multiples_vanish,
    lemma_mod_self_0, lemma_mul_mod_noop, lemma_mul_mod_noop_left, lemma_mul_mod_noop_right,
    lemma_small_mod,
};
use vstd::arithmetic::mul::{lemma_mul_is_commutative};
use crate::arith::{
    fmul, lemma_f_bound, lemma_f_small, lemma_fsub_mods, lemma_cancel_two, lemma_cong_scale,
};
use crate::fp::{Fp, FpParams, is_prime};

verus! {

/// `d` divides `x` evenly.
pub open spec fn divides(d: int, x: int) -> bool {
    x % d == 0
}

/// No integer of two or more divides both.
pub open spec fn coprime(u: int, v: int) -> bool {
    forall|d: int| 2 <= d ==> !(#[trigger] divides(d, u) && #[trigger] divides(d, v))
}

/// Halving an even cursor keeps it coprime to the other.
proof fn lemma_coprime_halve(u: int, v: int)
    requires
        u >= 2,
        u % 2 == 0,
        coprime(u, v),
    ensures
        coprime(u / 2, v),
{
    assert forall|d: int| 2 <= d implies !(#[trigger] divides(d, u / 2) && #[trigger] divides(
        d,
        v,
    )) by {
        if divides(d, u / 2) && divides(d, v) {
            lemma_fundamental_div_mod(u / 2, d);
            let k = (u / 2) / d;
            assert(u / 2 == d * k);
            assert(u == 2 * (u / 2));
            assert(u == (2 * k) * d) by (nonlinear_arith)
                requires
                    u == 2 * (u / 2),
                    u / 2 == d * k,
            ;
            lemma_mod_multiples_basic(2 * k, d);
            assert(divides(d, u));
        }
    }
}

/// Subtracting one cursor from the other keeps the pair coprime.
proof fn lemma_coprime_sub(u: int, v: int)
    requires
        coprime(u, v),
    ensures
        coprime(u - v, v),
{
    assert forall|d: int| 2 <= d implies !(#[trigger] divides(d, u - v) && #[trigger] divides(
        d,
        v,
    )) by {
        if divides(d, u - v) && divides(d, v) {
            lemma_fundamental_div_mod(u - v, d);
            lemma_fundamental_div_mod(v, d);
            let k1 = (u - v) / d;
            let k2 = v / d;
            assert(u == (k1 + k2) * d) by (nonlinear_arith)
                requires
                    u - v == d * k1,
                    v == d * k2,
            ;
            lemma_mod_multiples_basic(k1 + k2, d);
            assert(divides(d, u));
        }
    }
}

/// Coprimality does not depend on the order of the pair.
proof fn lemma_coprime_sym(u: int, v: int)
    requires
        coprime(u, v),
    ensures
        coprime(v, u),
{
    assert forall|d: int| 2 <= d implies !(#[trigger] divides(d, v) && #[trigger] divides(d, u))
        by {}
}

/// A nonzero residue is coprime to a prime modulus.
proof fn lemma_prime_coprime(p: int, a: int)
    requires
        is_prime(p),
        1 <= a < p,
    ensures
        coprime(a, p),
{
    assert forall|d: int| 2 <= d implies !(#[trigger] divides(d, a) && #[trigger] divides(d, p))
        by {
        if divides(d, a) && divides(d, p) {
            if d < p {
                assert(p % d != 0);
            } else {
                lemma_small_mod(a as nat, d as nat);
            }
        }
    }
}

/// A pair of equal cursors that is coprime is a pair of ones.
proof fn lemma_coprime_equal(u: int)
    requires
        u >= 2,
    ensures
        !coprime(u, u),
{
    lemma_mod_self_0(u);
    assert(divides(u, u));
}

/// One halving step: when twice the new cofactor is congruent to the old,
/// the cursor congruence survives with the cursor halved.
proof fn lemma_halve_cofactor(p: int, r2: int, a: int, u: int, b: int, b2: int)
    requires
        p > 2,
        p % 2 == 1,
        u >= 2,
        u % 2 == 0,
        (a * b) % p == (u * r2) % p,
        2 * b2 == b || 2 * b2 == b + p,
    ensures
        (a * b2) % p == ((u / 2) * r2) % p,
{
    assert((a * (2 * b2)) % p == (a * b) % p) by {
        if 2 * b2 == b {
        } else {
            assert(a * (2 * b2) == p * a + a * b) by (nonlinear_arith)
                requires
                    2 * b2 == b + p,
            ;
            lemma_mod_multiples_vanish(a, a * b, p);
        }
    }
    assert(a * (2 * b2) == 2 * (a * b2)) by (nonlinear_arith);
    assert(u * r2 == 2 * ((u / 2) * r2)) by (nonlinear_arith)
        requires
            u % 2 == 0,
            u == 2 * (u / 2),
    ;
    lemma_cancel_two(p, a * b2, (u / 2) * r2);
}

/// One subtraction step: the difference of the cofactors tracks the
/// difference of the cursors.
proof fn lemma_sub_cofactor(p: int, r2: int, a: int, u: int, v: int, b: int, c: int, d: int)
    requires
        p > 2,
        (a * b) % p == (u * r2) % p,
        (a * c) % p == (v * r2) % p,
        d % p == (b - c) % p,
    ensures
        (a * d) % p == ((u - v) * r2) % p,
{
    lemma_mul_mod_noop_right(a, d, p);
    lemma_mul_mod_noop_right(a, b - c, p);
    assert((a * d) % p == (a * (b - c)) % p) by {
        lemma_f_bound(p, d);
        lemma_f_bound(p, b - c);
    }
    assert(a * (b - c) == a * b - a * c) by (nonlinear_arith);
    lemma_fsub_mods(p, a * b, a * c);
    assert((a * b - a * c) % p == ((a * b) % p - (a * c) % p) % p);
    lemma_fsub_mods(p, u * r2, v * r2);
    assert((u * r2 - v * r2) % p == ((u * r2) % p - (v * r2) % p) % p);
    assert(u * r2 - v * r2 == (u - v) * r2) by (nonlinear_arith);
}

/// At the exit of the descent the surviving cofactor pairs with the input
/// to one: its raw congruence to `R^2` cancels both Montgomery factors.
proof fn lemma_bea_exit(pp: FpParams, a: u64, b: u64)
    requires
        pp.wf_arith(),
        0 < a < pp.modulus,
        b < pp.modulus,
        (a * b) % (pp.modulus as int) == (pp.r2 as int) % (pp.modulus as int),
    ensures
        fmul(pp.modulus as int, (Fp { repr: a }).abs(pp), (Fp { repr: b }).abs(pp)) == 1,
{
    let p = pp.modulus as int;
    let rm = pp.r as int;
    let rinv = pp.r_inv as int;
    let aa = (a * rinv) % p;
    let ba = (b * rinv) % p;
    assert((aa * ba) % p == ((a * rinv) * (b * rinv)) % p) by {
        lemma_mul_mod_noop(a as int * rinv, b as int * rinv, p);
    }
    assert((a * rinv) * (b * rinv) == (a * b) * (rinv * rinv)) by (nonlinear_arith);
    assert(((a * b) * (rinv * rinv)) % p == (pp.r2 * (rinv * rinv)) % p) by {
        lemma_cong_scale(p, a as int * b as int, pp.r2 as int, rinv * rinv);
        lemma_f_bound(p, pp.r2 as int);
        lemma_f_small(p, pp.r2 as int);
    }
    assert((pp.r2 * (rinv * rinv)) % p == ((rm * rm) * (rinv * rinv)) % p) by {
        lemma_mul_mod_noop_left(rm * rm, rinv * rinv, p);
        lemma_mul_mod_noop_left(pp.r2 as int, rinv * rinv, p);
    }
    assert((rm * rm) * (rinv * rinv) == (rm * rinv) * (rm * rinv)) by (nonlinear_arith);
    assert(((rm * rinv) * (rm * rinv)) % p == 1) by {
        lemma_mul_mod_noop(rm * rinv, rm * rinv, p);
        lemma_f_small(p, 1);
    }
}

impl Fp {
    /// The multiplicative inverse, or nothing for zero. The two cursors
    /// start at the element's representative and the modulus; halving an
    /// even cursor halves its cofactor modulo the odd prime, and the
    /// odd-odd state subtracts the smaller pair from the larger. Starting
    /// the first cofactor at `R^2` pre-cancels the Montgomery factor the
    /// final product would otherwise have lost.
    pub fn inverse(&self, pp: &FpParams) -> (r: Option<Fp>)
        requires
            pp.wf_arith(),
            self.inv_holds(*pp),
        ensures
            (r is None) <==> (self.abs(*pp) == 0),
            match r {
                Some(inv) => inv.inv_holds(*pp) && fmul(
                    pp.modulus as int,
                    self.abs(*pp),
                    inv.abs(*pp),
                ) == 1,
                None => true,
            },
    {
        if self.is_zero(pp) {
            return None;
        }
        let p = pp.modulus;
        let a = self.repr;
        let ghost pi = p as int;
        let ghost r2 = pp.r2 as int;
        let mut u = a;
        let mut v = p;
        let mut b: u64 = pp.r2;
        let mut c: u64 = 0;
        proof {
            assert(a != 0) by {
                if a == 0 {
                    assert(0int * pp.r_inv as int == 0) by (nonlinear_arith);
                    lemma_f_small(pi, 0);
                }
            }
            lemma_f_bound(pi, pp.r as int * pp.r as int);
            lemma_prime_coprime(pi, a as int);
            lemma_f_small(pi, 0);
            assert((a * c) % pi == (v * r2) % pi) by {
                assert(a * 0 == 0) by (nonlinear_arith);
                lemma_mul_is_commutative(pi, r2);
                lemma_mod_multiples_basic(r2, pi);
            }
        }
        while u != 1 && v != 1
            invariant
                pp.wf_arith(),
                p == pp.modulus,
                pi == p as int,
                r2 == pp.r2 as int,
                a == self.repr,
                1 <= a < p,
                1 <= u <= p,
                0 <= v <= p,
                v == 0 ==> u == 1,
                b < p,
                c < p,
                coprime(u as int, v as int),
                (a * b) % pi == (u * r2) % pi,
                (a * c) % pi == (v * r2) % pi,
            decreases u + v,
        {
            let ghost u_entry = u as int;
            let ghost v_entry = v as int;
            while u % 2 == 0
                invariant
                    pp.wf_arith(),
                    p == pp.modulus,
                    pi == p as int,
                    r2 == pp.r2 as int,
                    a == self.repr,
                    1 <= a < p,
                    1 <= u,
                    u <= u_entry,
                    1 <= v <= p,
                    b < p,
                    c < p,
                    coprime(u as int, v as int),
                    (a * b) % pi == (u * r2) % pi,
                    (a * c) % pi == (v * r2) % pi,
                decreases u,
            {
                let ghost ub = u as int;
                let ghost bb = b as int;
                if b % 2 == 0 {
                    b = b / 2;
                } else {
                    b = (b + p) / 2;
                }
                u = u / 2;
                proof {
                    assert(2 * (b as int) == bb || 2 * (b as int) == bb + pi);
                    lemma_halve_cofactor(pi, r2, a as int, ub, bb, b as int);
                    lemma_coprime_halve(ub, v as int);
                }
            }
            while v % 2 == 0
                invariant
                    pp.wf_arith(),
                    p == pp.modulus,
                    pi == p as int,
                    r2 == pp.r2 as int,
                    a == self.repr,
                    1 <= a < p,
                    1 <= u,
                    u <= u_entry,
                    1 <= v,
                    v <= v_entry,
                    b < p,
                    c < p,
                    coprime(u as int, v as int),
                    (a * b) % pi == (u * r2) % pi,
                    (a * c) % pi == (v * r2) % pi,
                decreases v,
            {
                let ghost vb = v as int;
                let ghost cb = c as int;
                if c % 2 == 0 {
                    c = c / 2;
                } else {
                    c = (c + p) / 2;
                }
                v = v / 2;
                proof {
                    lemma_halve_cofactor(pi, r2, a as int, vb, cb, c as int);
                    lemma_coprime_sym(u as int, vb);
                    lemma_coprime_halve(vb, u as int);
                    lemma_coprime_sym(v as int, u as int);
                }
            }
            proof {
                if u == v {
                    if u >= 2 {
                        lemma_coprime_equal(u as int);
                        assert(false);
                    }
                }
            }
            if v < u {
                let ghost ub = u as int;
                let ghost bb = b as int;
                u = u - v;
                let d = if c > b {
                    b + p - c
                } else {
                    b - c
                };
                proof {
                    lemma_sub_step_congruent(pi, bb, c as int, d as int);
                    lemma_sub_cofactor(pi, r2, a as int, ub, v as int, bb, c as int, d as int);
                    lemma_coprime_sub(ub, v as int);
                }
                b = d;
            } else {
                let ghost vb = v as int;
                let ghost cb = c as int;
                v = v - u;
                let d = if b > c {
                    c + p - b
                } else {
                    c - b
                };
                proof {
                    lemma_sub_step_congruent(pi, cb, b as int, d as int);
                    lemma_sub_cofactor(pi, r2, a as int, vb, u as int, cb, b as int, d as int);
                    lemma_coprime_sym(u as int, vb);
                    lemma_coprime_sub(vb, u as int);
                    lemma_coprime_sym(vb - u as int, u as int);
                }
                c = d;
            }
        }
        if u == 1 {
            proof {
                lemma_f_small(pi, r2);
                lemma_f_small(pi, 1 as int * r2);
                assert(1 as int * r2 == r2) by (nonlinear_arith);
                lemma_bea_exit(*pp, a, b);
            }
            Some(Fp { repr: b })
        } else {
            proof {
                lemma_f_small(pi, r2);
                assert(1 as int * r2 == r2) by (nonlinear_arith);
                lemma_bea_exit(*pp, a, c);
            }
            Some(Fp { repr: c })
        }
    }
}

/// A reduced difference taken with one conditional modulus correction is
/// congruent to the plain difference.
proof fn lemma_sub_step_congruent(p: int, b: int, c: int, d: int)
    requires
        p > 2,
        0 <= b < p,
        0 <= c < p,
        d == b - c || d == b + p - c,
        0 <= d < p,
    ensures
        d % p == (b - c) % p,
{
    if d == b - c {
        lemma_f_small(p, d);
    } else {
        lemma_mod_multiples_vanish(1, b - c, p);
        assert(p * 1 + (b - c) == d);
        lemma_f_small(p, d);
    }
}


impl Fp {
    /// Inversion in place; zero is left unchanged and reported.
    pub fn inverse_in_place(&mut self, pp: &FpParams) -> (r: bool)
        requires
            pp.wf_arith(),
            old(self).inv_holds(*pp),
        ensures
            final(self).inv_holds(*pp),
            r <==> (old(self).abs(*pp) != 0),
            !r ==> *final(self) == *old(self),
            r ==> fmul(pp.modulus as int, old(self).abs(*pp), final(self).abs(*pp)) == 1,
    {
        match self.inverse(pp) {
            Some(inv) => {
                *self = inv;
                true
            },
            None => false,
        }
    }
}

} // verus!
