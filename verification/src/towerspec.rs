//! The mathematical model of the extension tower: a quadratic extension
//! value is a pair of base residues, a cubic extension a triple of pairs,
//! and the top quadratic extension a pair of triples. Multiplication is
//! stated schoolbook, with the nonresidue reduction written out, so every
//! executable shortcut is proved against the plain expansion.

use vstd::prelude::*;
use vstd::arithmetic::div_mod::{
    lemma_mul_mod_noop_left, lemma_mul_mod_noop_right,
};
use crate::arith::{
    fadd, fsub, fmul, f_valid, lemma_f_bound, lemma_f_small, lemma_fadd_mods, lemma_fsub_mods,
    lemma_fadd_comm,
};

verus! {

/// A quadratic-extension value: `c0 + c1 X` over the base prime field.
pub struct V2 {
    pub c0: int,
    pub c1: int,
}

/// A cubic-extension value over the quadratic one: `c0 + c1 Y + c2 Y^2`.
pub struct V6 {
    pub c0: V2,
    pub c1: V2,
    pub c2: V2,
}

/// The top quadratic-extension value over the cubic one: `c0 + c1 Z`.
pub struct V12 {
    pub c0: V6,
    pub c1: V6,
}

/// Both coordinates are canonical residues.
pub open spec fn v2_valid(p: int, a: V2) -> bool {
    f_valid(p, a.c0) && f_valid(p, a.c1)
}

pub open spec fn v2_zero() -> V2 {
    V2 { c0: 0, c1: 0 }
}

pub open spec fn v2_add(p: int, a: V2, b: V2) -> V2 {
    V2 { c0: fadd(p, a.c0, b.c0), c1: fadd(p, a.c1, b.c1) }
}

pub open spec fn v2_sub(p: int, a: V2, b: V2) -> V2 {
    V2 { c0: fsub(p, a.c0, b.c0), c1: fsub(p, a.c1, b.c1) }
}

/// Schoolbook quadratic-extension product with `X^2 = nr`.
pub open spec fn v2_mul(p: int, nr: int, a: V2, b: V2) -> V2 {
    V2 {
        c0: fadd(p, fmul(p, a.c0, b.c0), fmul(p, nr, fmul(p, a.c1, b.c1))),
        c1: fadd(p, fmul(p, a.c0, b.c1), fmul(p, a.c1, b.c0)),
    }
}

/// Scaling both coordinates by a base-field residue.
pub open spec fn v2_scale_fp(p: int, a: V2, k: int) -> V2 {
    V2 { c0: fmul(p, a.c0, k), c1: fmul(p, a.c1, k) }
}

pub open spec fn v6_valid(p: int, a: V6) -> bool {
    v2_valid(p, a.c0) && v2_valid(p, a.c1) && v2_valid(p, a.c2)
}

pub open spec fn v6_zero() -> V6 {
    V6 { c0: v2_zero(), c1: v2_zero(), c2: v2_zero() }
}

pub open spec fn v6_add(p: int, a: V6, b: V6) -> V6 {
    V6 {
        c0: v2_add(p, a.c0, b.c0),
        c1: v2_add(p, a.c1, b.c1),
        c2: v2_add(p, a.c2, b.c2),
    }
}

pub open spec fn v6_sub(p: int, a: V6, b: V6) -> V6 {
    V6 {
        c0: v2_sub(p, a.c0, b.c0),
        c1: v2_sub(p, a.c1, b.c1),
        c2: v2_sub(p, a.c2, b.c2),
    }
}

/// Schoolbook cubic-extension product with `Y^3 = nr2`, the quadratic
/// nonresidue pair of the middle level.
pub open spec fn v6_mul(p: int, nr: int, nr2: V2, a: V6, b: V6) -> V6 {
    V6 {
        c0: v2_add(
            p,
            v2_mul(p, nr, a.c0, b.c0),
            v2_mul(p, nr, nr2, v2_add(p, v2_mul(p, nr, a.c1, b.c2), v2_mul(p, nr, a.c2, b.c1))),
        ),
        c1: v2_add(
            p,
            v2_add(p, v2_mul(p, nr, a.c0, b.c1), v2_mul(p, nr, a.c1, b.c0)),
            v2_mul(p, nr, nr2, v2_mul(p, nr, a.c2, b.c2)),
        ),
        c2: v2_add(
            p,
            v2_add(p, v2_mul(p, nr, a.c0, b.c2), v2_mul(p, nr, a.c1, b.c1)),
            v2_mul(p, nr, a.c2, b.c0),
        ),
    }
}

/// Scaling all three coordinates by a quadratic-extension value.
pub open spec fn v6_scale(p: int, nr: int, a: V6, k: V2) -> V6 {
    V6 {
        c0: v2_mul(p, nr, a.c0, k),
        c1: v2_mul(p, nr, a.c1, k),
        c2: v2_mul(p, nr, a.c2, k),
    }
}

/// Scaling all three coordinates by a base-field residue.
pub open spec fn v6_scale_fp(p: int, a: V6, k: int) -> V6 {
    V6 {
        c0: v2_scale_fp(p, a.c0, k),
        c1: v2_scale_fp(p, a.c1, k),
        c2: v2_scale_fp(p, a.c2, k),
    }
}

/// Multiplying a cubic-extension value by the nonresidue `Z^2 = Y` of the
/// top level: the coordinates rotate and the top one picks up `nr2`.
pub open spec fn v6_mul_by_nonresidue(p: int, nr: int, nr2: V2, a: V6) -> V6 {
    V6 { c0: v2_mul(p, nr, nr2, a.c2), c1: a.c0, c2: a.c1 }
}

pub open spec fn v12_valid(p: int, a: V12) -> bool {
    v6_valid(p, a.c0) && v6_valid(p, a.c1)
}

pub open spec fn v12_add(p: int, a: V12, b: V12) -> V12 {
    V12 { c0: v6_add(p, a.c0, b.c0), c1: v6_add(p, a.c1, b.c1) }
}

pub open spec fn v12_sub(p: int, a: V12, b: V12) -> V12 {
    V12 { c0: v6_sub(p, a.c0, b.c0), c1: v6_sub(p, a.c1, b.c1) }
}

/// Schoolbook top-level product with `Z^2` the rotation nonresidue.
pub open spec fn v12_mul(p: int, nr: int, nr2: V2, a: V12, b: V12) -> V12 {
    V12 {
        c0: v6_add(
            p,
            v6_mul(p, nr, nr2, a.c0, b.c0),
            v6_mul_by_nonresidue(p, nr, nr2, v6_mul(p, nr, nr2, a.c1, b.c1)),
        ),
        c1: v6_add(p, v6_mul(p, nr, nr2, a.c0, b.c1), v6_mul(p, nr, nr2, a.c1, b.c0)),
    }
}

/// Scaling all six coordinates by a base-field residue.
pub open spec fn v12_scale_fp(p: int, a: V12, k: int) -> V12 {
    V12 { c0: v6_scale_fp(p, a.c0, k), c1: v6_scale_fp(p, a.c1, k) }
}

// ---------------------------------------------------------------------------
// validity of the spec operations

pub proof fn lemma_v2_add_valid(p: int, a: V2, b: V2)
    requires
        p > 0,
    ensures
        v2_valid(p, v2_add(p, a, b)),
{
    lemma_f_bound(p, a.c0 + b.c0);
    lemma_f_bound(p, a.c1 + b.c1);
}

pub proof fn lemma_v2_mul_valid(p: int, nr: int, a: V2, b: V2)
    requires
        p > 0,
    ensures
        v2_valid(p, v2_mul(p, nr, a, b)),
{
    lemma_f_bound(p, fmul(p, a.c0, b.c0) + fmul(p, nr, fmul(p, a.c1, b.c1)));
    lemma_f_bound(p, fmul(p, a.c0, b.c1) + fmul(p, a.c1, b.c0));
}

// ---------------------------------------------------------------------------
// ring laws at the base level, then lifted to pairs

/// Two sums of four terms, grouped differently, agree.
pub proof fn lemma_fadd4(p: int, a: int, b: int, c: int, d: int)
    requires
        p > 0,
        f_valid(p, a),
        f_valid(p, b),
        f_valid(p, c),
        f_valid(p, d),
    ensures
        fadd(p, fadd(p, a, b), fadd(p, c, d)) == fadd(p, fadd(p, a, c), fadd(p, b, d)),
{
    lemma_f_small(p, a);
    lemma_f_small(p, b);
    lemma_f_small(p, c);
    lemma_f_small(p, d);
    lemma_fadd_mods(p, a + b, c + d);
    lemma_fadd_mods(p, a + c, b + d);
}

/// Removing two of four summed terms leaves the other two.
pub proof fn lemma_fadd4_cancel(p: int, a: int, b: int, c: int, d: int)
    requires
        p > 0,
        f_valid(p, a),
        f_valid(p, b),
        f_valid(p, c),
        f_valid(p, d),
    ensures
        fsub(p, fadd(p, fadd(p, a, b), fadd(p, c, d)), fadd(p, a, d)) == fadd(p, b, c),
{
    lemma_f_small(p, a);
    lemma_f_small(p, b);
    lemma_f_small(p, c);
    lemma_f_small(p, d);
    lemma_fadd_mods(p, a + b, c + d);
    lemma_fsub_mods(p, a + b + c + d, a + d);
    assert(fsub(p, fadd(p, fadd(p, a, b), fadd(p, c, d)), fadd(p, a, d)) == ((a + b + c + d) - (a
        + d)) % p) by {
        lemma_fadd_mods(p, a, d);
        lemma_fsub_mods(p, a + b + c + d, a + d);
    }
    lemma_fadd_mods(p, b, c);
}

/// Multiplication of reduced residues distributes over their sum.
pub proof fn lemma_fmul_add_left(p: int, a: int, b: int, c: int)
    requires
        p > 0,
        f_valid(p, a),
        f_valid(p, b),
        f_valid(p, c),
    ensures
        fmul(p, fadd(p, a, b), c) == fadd(p, fmul(p, a, c), fmul(p, b, c)),
{
    lemma_f_small(p, c);
    lemma_mul_mod_noop_left(a + b, c, p);
    assert(fmul(p, fadd(p, a, b), c) == ((a + b) * c) % p);
    assert((a + b) * c == a * c + b * c) by (nonlinear_arith);
    lemma_fadd_mods(p, a * c, b * c);
}

/// The pair product is commutative.
pub proof fn lemma_v2_mul_comm(p: int, nr: int, a: V2, b: V2)
    requires
        p > 0,
    ensures
        v2_mul(p, nr, a, b) == v2_mul(p, nr, b, a),
{
    assert(a.c0 * b.c0 == b.c0 * a.c0) by (nonlinear_arith);
    assert(a.c1 * b.c1 == b.c1 * a.c1) by (nonlinear_arith);
    assert(a.c0 * b.c1 == b.c1 * a.c0) by (nonlinear_arith);
    assert(a.c1 * b.c0 == b.c0 * a.c1) by (nonlinear_arith);
    lemma_fadd_comm(p, fmul(p, b.c0, a.c1), fmul(p, b.c1, a.c0));
}

/// The pair sum is commutative.
pub proof fn lemma_v2_add_comm(p: int, a: V2, b: V2)
    requires
        p > 0,
    ensures
        v2_add(p, a, b) == v2_add(p, b, a),
{
}

/// The pair product distributes over the pair sum on the left.
pub proof fn lemma_v2_mul_add_left(p: int, nr: int, a: V2, b: V2, c: V2)
    requires
        p > 0,
        f_valid(p, nr),
        v2_valid(p, a),
        v2_valid(p, b),
        v2_valid(p, c),
    ensures
        v2_mul(p, nr, v2_add(p, a, b), c) == v2_add(p, v2_mul(p, nr, a, c), v2_mul(p, nr, b, c)),
{
    let lhs = v2_mul(p, nr, v2_add(p, a, b), c);
    // first coordinate
    assert(lhs.c0 == ((a.c0 + b.c0) * c.c0 + nr * ((a.c1 + b.c1) * c.c1)) % p) by {
        lemma_mul_mod_noop_left(a.c0 + b.c0, c.c0, p);
        lemma_f_small(p, c.c0);
        lemma_mul_mod_noop_left(a.c1 + b.c1, c.c1, p);
        lemma_f_small(p, c.c1);
        lemma_mul_mod_noop_right(nr, (a.c1 + b.c1) * c.c1, p);
        lemma_f_small(p, nr);
        lemma_fadd_mods(p, (a.c0 + b.c0) * c.c0, nr * ((a.c1 + b.c1) * c.c1));
    }
    let ra = v2_mul(p, nr, a, c);
    let rb = v2_mul(p, nr, b, c);
    assert(v2_add(p, ra, rb).c0 == (a.c0 * c.c0 + nr * (a.c1 * c.c1) + (b.c0 * c.c0 + nr * (b.c1
        * c.c1))) % p) by {
        lemma_mul_mod_noop_right(nr, a.c1 * c.c1, p);
        lemma_f_small(p, nr);
        lemma_fadd_mods(p, a.c0 * c.c0, nr * (a.c1 * c.c1));
        lemma_mul_mod_noop_right(nr, b.c1 * c.c1, p);
        lemma_fadd_mods(p, b.c0 * c.c0, nr * (b.c1 * c.c1));
        lemma_fadd_mods(p, a.c0 * c.c0 + nr * (a.c1 * c.c1), b.c0 * c.c0 + nr * (b.c1 * c.c1));
    }
    assert((a.c0 + b.c0) * c.c0 + nr * ((a.c1 + b.c1) * c.c1) == a.c0 * c.c0 + nr * (a.c1 * c.c1)
        + (b.c0 * c.c0 + nr * (b.c1 * c.c1))) by (nonlinear_arith);
    // second coordinate
    assert(lhs.c1 == ((a.c0 + b.c0) * c.c1 + (a.c1 + b.c1) * c.c0) % p) by {
        lemma_mul_mod_noop_left(a.c0 + b.c0, c.c1, p);
        lemma_f_small(p, c.c1);
        lemma_mul_mod_noop_left(a.c1 + b.c1, c.c0, p);
        lemma_f_small(p, c.c0);
        lemma_fadd_mods(p, (a.c0 + b.c0) * c.c1, (a.c1 + b.c1) * c.c0);
    }
    assert(v2_add(p, ra, rb).c1 == (a.c0 * c.c1 + a.c1 * c.c0 + (b.c0 * c.c1 + b.c1 * c.c0)) % p)
        by {
        lemma_fadd_mods(p, a.c0 * c.c1, a.c1 * c.c0);
        lemma_fadd_mods(p, b.c0 * c.c1, b.c1 * c.c0);
        lemma_fadd_mods(p, a.c0 * c.c1 + a.c1 * c.c0, b.c0 * c.c1 + b.c1 * c.c0);
    }
    assert((a.c0 + b.c0) * c.c1 + (a.c1 + b.c1) * c.c0 == a.c0 * c.c1 + a.c1 * c.c0 + (b.c0 * c.c1
        + b.c1 * c.c0)) by (nonlinear_arith);
}

/// The pair product distributes over the pair sum on the right.
pub proof fn lemma_v2_mul_add_right(p: int, nr: int, a: V2, b: V2, c: V2)
    requires
        p > 0,
        f_valid(p, nr),
        v2_valid(p, a),
        v2_valid(p, b),
        v2_valid(p, c),
    ensures
        v2_mul(p, nr, c, v2_add(p, a, b)) == v2_add(p, v2_mul(p, nr, c, a), v2_mul(p, nr, c, b)),
{
    lemma_v2_mul_add_left(p, nr, a, b, c);
    lemma_v2_mul_comm(p, nr, c, v2_add(p, a, b));
    lemma_v2_mul_comm(p, nr, c, a);
    lemma_v2_mul_comm(p, nr, c, b);
}

/// Multiplying a pair by zero gives zero, and adding zero changes nothing.
pub proof fn lemma_v2_zero_laws(p: int, nr: int, a: V2)
    requires
        p > 1,
        f_valid(p, nr),
        v2_valid(p, a),
    ensures
        v2_mul(p, nr, a, v2_zero()) == v2_zero(),
        v2_mul(p, nr, v2_zero(), a) == v2_zero(),
        v2_add(p, a, v2_zero()) == a,
        v2_add(p, v2_zero(), a) == a,
{
    lemma_f_small(p, 0);
    assert(a.c0 * 0 == 0) by (nonlinear_arith);
    assert(a.c1 * 0 == 0) by (nonlinear_arith);
    assert(0 * a.c0 == 0) by (nonlinear_arith);
    assert(0 * a.c1 == 0) by (nonlinear_arith);
    assert(nr * 0 == 0) by (nonlinear_arith);
    lemma_f_small(p, a.c0);
    lemma_f_small(p, a.c1);
}

/// Four summed pairs, regrouped.
pub proof fn lemma_v2_add4(p: int, a: V2, b: V2, c: V2, d: V2)
    requires
        p > 0,
        v2_valid(p, a),
        v2_valid(p, b),
        v2_valid(p, c),
        v2_valid(p, d),
    ensures
        v2_add(p, v2_add(p, a, b), v2_add(p, c, d)) == v2_add(p, v2_add(p, a, c), v2_add(p, b, d)),
{
    lemma_fadd4(p, a.c0, b.c0, c.c0, d.c0);
    lemma_fadd4(p, a.c1, b.c1, c.c1, d.c1);
}

/// Cancelling the first and last of four summed pairs.
pub proof fn lemma_v2_add4_cancel(p: int, a: V2, b: V2, c: V2, d: V2)
    requires
        p > 0,
        v2_valid(p, a),
        v2_valid(p, b),
        v2_valid(p, c),
        v2_valid(p, d),
    ensures
        v2_sub(p, v2_add(p, v2_add(p, a, b), v2_add(p, c, d)), v2_add(p, a, d)) == v2_add(p, b, c),
{
    lemma_fadd4_cancel(p, a.c0, b.c0, c.c0, d.c0);
    lemma_fadd4_cancel(p, a.c1, b.c1, c.c1, d.c1);
}

/// Cancelling the first and last of four summed terms, one at a time.
pub proof fn lemma_fadd4_cancel2(p: int, a: int, b: int, c: int, d: int)
    requires
        p > 0,
        f_valid(p, a),
        f_valid(p, b),
        f_valid(p, c),
        f_valid(p, d),
    ensures
        fsub(p, fsub(p, fadd(p, fadd(p, a, b), fadd(p, c, d)), a), d) == fadd(p, b, c),
{
    lemma_f_small(p, a);
    lemma_f_small(p, b);
    lemma_f_small(p, c);
    lemma_f_small(p, d);
    lemma_fadd_mods(p, a + b, c + d);
    assert(fsub(p, fadd(p, fadd(p, a, b), fadd(p, c, d)), a) == (a + b + c + d - a) % p) by {
        lemma_fsub_mods(p, a + b + c + d, a);
    }
    assert(fsub(p, (b + c + d) % p, d) == (b + c) % p) by {
        lemma_fsub_mods(p, b + c + d, d);
    }
    lemma_fadd_mods(p, b, c);
}

/// The pair version of cancelling first and last, one at a time.
pub proof fn lemma_v2_add4_cancel2(p: int, a: V2, b: V2, c: V2, d: V2)
    requires
        p > 0,
        v2_valid(p, a),
        v2_valid(p, b),
        v2_valid(p, c),
        v2_valid(p, d),
    ensures
        v2_sub(p, v2_sub(p, v2_add(p, v2_add(p, a, b), v2_add(p, c, d)), a), d) == v2_add(p, b, c),
{
    lemma_fadd4_cancel2(p, a.c0, b.c0, c.c0, d.c0);
    lemma_fadd4_cancel2(p, a.c1, b.c1, c.c1, d.c1);
}

// ---------------------------------------------------------------------------
// the cubic level

/// The triple sum is commutative.
pub proof fn lemma_v6_add_comm(p: int, a: V6, b: V6)
    requires
        p > 0,
    ensures
        v6_add(p, a, b) == v6_add(p, b, a),
{
    lemma_v2_add_comm(p, a.c0, b.c0);
    lemma_v2_add_comm(p, a.c1, b.c1);
    lemma_v2_add_comm(p, a.c2, b.c2);
}

pub proof fn lemma_v6_add_valid(p: int, a: V6, b: V6)
    requires
        p > 0,
    ensures
        v6_valid(p, v6_add(p, a, b)),
{
    lemma_v2_add_valid(p, a.c0, b.c0);
    lemma_v2_add_valid(p, a.c1, b.c1);
    lemma_v2_add_valid(p, a.c2, b.c2);
}

pub proof fn lemma_v6_mul_valid(p: int, nr: int, nr2: V2, a: V6, b: V6)
    requires
        p > 0,
    ensures
        v6_valid(p, v6_mul(p, nr, nr2, a, b)),
{
    let r = v6_mul(p, nr, nr2, a, b);
    lemma_v2_add_valid(
        p,
        v2_mul(p, nr, a.c0, b.c0),
        v2_mul(p, nr, nr2, v2_add(p, v2_mul(p, nr, a.c1, b.c2), v2_mul(p, nr, a.c2, b.c1))),
    );
    lemma_v2_add_valid(
        p,
        v2_add(p, v2_mul(p, nr, a.c0, b.c1), v2_mul(p, nr, a.c1, b.c0)),
        v2_mul(p, nr, nr2, v2_mul(p, nr, a.c2, b.c2)),
    );
    lemma_v2_add_valid(
        p,
        v2_add(p, v2_mul(p, nr, a.c0, b.c2), v2_mul(p, nr, a.c1, b.c1)),
        v2_mul(p, nr, a.c2, b.c0),
    );
}

/// The triple product distributes over the triple sum on the left.
pub proof fn lemma_v6_mul_add_left(p: int, nr: int, nr2: V2, x: V6, y: V6, z: V6)
    requires
        p > 1,
        f_valid(p, nr),
        v2_valid(p, nr2),
        v6_valid(p, x),
        v6_valid(p, y),
        v6_valid(p, z),
    ensures
        v6_mul(p, nr, nr2, v6_add(p, x, y), z) == v6_add(
            p,
            v6_mul(p, nr, nr2, x, z),
            v6_mul(p, nr, nr2, y, z),
        ),
{
    // expand each coordinate product of a sum into the sum of products
    lemma_v2_mul_add_left(p, nr, x.c0, y.c0, z.c0);
    lemma_v2_mul_add_left(p, nr, x.c0, y.c0, z.c1);
    lemma_v2_mul_add_left(p, nr, x.c0, y.c0, z.c2);
    lemma_v2_mul_add_left(p, nr, x.c1, y.c1, z.c0);
    lemma_v2_mul_add_left(p, nr, x.c1, y.c1, z.c1);
    lemma_v2_mul_add_left(p, nr, x.c1, y.c1, z.c2);
    lemma_v2_mul_add_left(p, nr, x.c2, y.c2, z.c0);
    lemma_v2_mul_add_left(p, nr, x.c2, y.c2, z.c1);
    lemma_v2_mul_add_left(p, nr, x.c2, y.c2, z.c2);
    // validity of all the pieces
    lemma_v2_mul_valid(p, nr, x.c0, z.c0);
    lemma_v2_mul_valid(p, nr, x.c0, z.c1);
    lemma_v2_mul_valid(p, nr, x.c0, z.c2);
    lemma_v2_mul_valid(p, nr, x.c1, z.c0);
    lemma_v2_mul_valid(p, nr, x.c1, z.c1);
    lemma_v2_mul_valid(p, nr, x.c1, z.c2);
    lemma_v2_mul_valid(p, nr, x.c2, z.c0);
    lemma_v2_mul_valid(p, nr, x.c2, z.c1);
    lemma_v2_mul_valid(p, nr, x.c2, z.c2);
    lemma_v2_mul_valid(p, nr, y.c0, z.c0);
    lemma_v2_mul_valid(p, nr, y.c0, z.c1);
    lemma_v2_mul_valid(p, nr, y.c0, z.c2);
    lemma_v2_mul_valid(p, nr, y.c1, z.c0);
    lemma_v2_mul_valid(p, nr, y.c1, z.c1);
    lemma_v2_mul_valid(p, nr, y.c1, z.c2);
    lemma_v2_mul_valid(p, nr, y.c2, z.c0);
    lemma_v2_mul_valid(p, nr, y.c2, z.c1);
    lemma_v2_mul_valid(p, nr, y.c2, z.c2);
    // c0: x0z0 + y0z0 + nr2((x1z2 + y1z2) + (x2z1 + y2z1))
    let x1z2 = v2_mul(p, nr, x.c1, z.c2);
    let y1z2 = v2_mul(p, nr, y.c1, z.c2);
    let x2z1 = v2_mul(p, nr, x.c2, z.c1);
    let y2z1 = v2_mul(p, nr, y.c2, z.c1);
    lemma_v2_add4(p, x1z2, y1z2, x2z1, y2z1);
    lemma_v2_add_valid(p, x1z2, y1z2);
    lemma_v2_add_valid(p, x2z1, y2z1);
    lemma_v2_add_valid(p, x1z2, x2z1);
    lemma_v2_add_valid(p, y1z2, y2z1);
    lemma_v2_mul_add_right(p, nr, v2_add(p, x1z2, x2z1), v2_add(p, y1z2, y2z1), nr2);
    let x0z0 = v2_mul(p, nr, x.c0, z.c0);
    let y0z0 = v2_mul(p, nr, y.c0, z.c0);
    let nx = v2_mul(p, nr, nr2, v2_add(p, x1z2, x2z1));
    let ny = v2_mul(p, nr, nr2, v2_add(p, y1z2, y2z1));
    lemma_v2_mul_valid(p, nr, nr2, v2_add(p, x1z2, x2z1));
    lemma_v2_mul_valid(p, nr, nr2, v2_add(p, y1z2, y2z1));
    lemma_v2_add4(p, x0z0, y0z0, nx, ny);
    // c1: (x0z1 + y0z1 + (x1z0 + y1z0)) + nr2(x2z2 + y2z2)
    let x0z1 = v2_mul(p, nr, x.c0, z.c1);
    let y0z1 = v2_mul(p, nr, y.c0, z.c1);
    let x1z0 = v2_mul(p, nr, x.c1, z.c0);
    let y1z0 = v2_mul(p, nr, y.c1, z.c0);
    lemma_v2_add4(p, x0z1, y0z1, x1z0, y1z0);
    let x2z2 = v2_mul(p, nr, x.c2, z.c2);
    let y2z2 = v2_mul(p, nr, y.c2, z.c2);
    lemma_v2_mul_add_right(p, nr, x2z2, y2z2, nr2);
    let nx1 = v2_mul(p, nr, nr2, x2z2);
    let ny1 = v2_mul(p, nr, nr2, y2z2);
    lemma_v2_mul_valid(p, nr, nr2, x2z2);
    lemma_v2_mul_valid(p, nr, nr2, y2z2);
    lemma_v2_add_valid(p, x0z1, x1z0);
    lemma_v2_add_valid(p, y0z1, y1z0);
    lemma_v2_add4(p, v2_add(p, x0z1, x1z0), v2_add(p, y0z1, y1z0), nx1, ny1);
    // c2: (x0z2 + y0z2 + (x1z1 + y1z1)) + (x2z0 + y2z0)
    let x0z2 = v2_mul(p, nr, x.c0, z.c2);
    let y0z2 = v2_mul(p, nr, y.c0, z.c2);
    let x1z1 = v2_mul(p, nr, x.c1, z.c1);
    let y1z1 = v2_mul(p, nr, y.c1, z.c1);
    let x2z0 = v2_mul(p, nr, x.c2, z.c0);
    let y2z0 = v2_mul(p, nr, y.c2, z.c0);
    lemma_v2_add4(p, x0z2, y0z2, x1z1, y1z1);
    lemma_v2_add_valid(p, x0z2, x1z1);
    lemma_v2_add_valid(p, y0z2, y1z1);
    lemma_v2_add4(p, v2_add(p, x0z2, x1z1), v2_add(p, y0z2, y1z1), x2z0, y2z0);
}

/// The triple product distributes over the triple sum on the right.
pub proof fn lemma_v6_mul_add_right(p: int, nr: int, nr2: V2, x: V6, y: V6, z: V6)
    requires
        p > 1,
        f_valid(p, nr),
        v2_valid(p, nr2),
        v6_valid(p, x),
        v6_valid(p, y),
        v6_valid(p, z),
    ensures
        v6_mul(p, nr, nr2, z, v6_add(p, x, y)) == v6_add(
            p,
            v6_mul(p, nr, nr2, z, x),
            v6_mul(p, nr, nr2, z, y),
        ),
{
    lemma_v6_mul_comm(p, nr, nr2, z, v6_add(p, x, y));
    lemma_v6_mul_add_left(p, nr, nr2, x, y, z);
    lemma_v6_mul_comm(p, nr, nr2, z, x);
    lemma_v6_mul_comm(p, nr, nr2, z, y);
}

/// Three summed pairs with the outer terms swapped.
pub proof fn lemma_v2_add3_swap(p: int, a: V2, b: V2, c: V2)
    requires
        p > 0,
        v2_valid(p, a),
        v2_valid(p, b),
        v2_valid(p, c),
    ensures
        v2_add(p, v2_add(p, a, b), c) == v2_add(p, v2_add(p, c, b), a),
{
    lemma_f_small(p, a.c0);
    lemma_f_small(p, b.c0);
    lemma_f_small(p, c.c0);
    lemma_f_small(p, a.c1);
    lemma_f_small(p, b.c1);
    lemma_f_small(p, c.c1);
    lemma_fadd_mods(p, a.c0 + b.c0, c.c0);
    lemma_fadd_mods(p, c.c0 + b.c0, a.c0);
    lemma_fadd_mods(p, a.c1 + b.c1, c.c1);
    lemma_fadd_mods(p, c.c1 + b.c1, a.c1);
}

/// The triple product is commutative.
pub proof fn lemma_v6_mul_comm(p: int, nr: int, nr2: V2, a: V6, b: V6)
    requires
        p > 0,
    ensures
        v6_mul(p, nr, nr2, a, b) == v6_mul(p, nr, nr2, b, a),
{
    lemma_v2_mul_comm(p, nr, a.c0, b.c0);
    lemma_v2_mul_comm(p, nr, a.c0, b.c1);
    lemma_v2_mul_comm(p, nr, a.c0, b.c2);
    lemma_v2_mul_comm(p, nr, a.c1, b.c0);
    lemma_v2_mul_comm(p, nr, a.c1, b.c1);
    lemma_v2_mul_comm(p, nr, a.c1, b.c2);
    lemma_v2_mul_comm(p, nr, a.c2, b.c0);
    lemma_v2_mul_comm(p, nr, a.c2, b.c1);
    lemma_v2_mul_comm(p, nr, a.c2, b.c2);
    lemma_v2_add_comm(p, v2_mul(p, nr, b.c2, a.c1), v2_mul(p, nr, b.c1, a.c2));
    lemma_v2_add_comm(p, v2_mul(p, nr, b.c1, a.c0), v2_mul(p, nr, b.c0, a.c1));
    lemma_v2_mul_valid(p, nr, a.c0, b.c2);
    lemma_v2_mul_valid(p, nr, a.c1, b.c1);
    lemma_v2_mul_valid(p, nr, a.c2, b.c0);
    lemma_v2_add3_swap(
        p,
        v2_mul(p, nr, a.c0, b.c2),
        v2_mul(p, nr, a.c1, b.c1),
        v2_mul(p, nr, a.c2, b.c0),
    );
}


/// The triple version of cancelling the first and last of four sums.
pub proof fn lemma_v6_add4_cancel(p: int, a: V6, b: V6, c: V6, d: V6)
    requires
        p > 0,
        v6_valid(p, a),
        v6_valid(p, b),
        v6_valid(p, c),
        v6_valid(p, d),
    ensures
        v6_sub(p, v6_add(p, v6_add(p, a, b), v6_add(p, c, d)), v6_add(p, a, d)) == v6_add(p, b, c),
{
    lemma_v2_add4_cancel(p, a.c0, b.c0, c.c0, d.c0);
    lemma_v2_add4_cancel(p, a.c1, b.c1, c.c1, d.c1);
    lemma_v2_add4_cancel(p, a.c2, b.c2, c.c2, d.c2);
}

/// The triple version of cancelling first and last, one at a time.
pub proof fn lemma_v6_add4_cancel2(p: int, a: V6, b: V6, c: V6, d: V6)
    requires
        p > 0,
        v6_valid(p, a),
        v6_valid(p, b),
        v6_valid(p, c),
        v6_valid(p, d),
    ensures
        v6_sub(p, v6_sub(p, v6_add(p, v6_add(p, a, b), v6_add(p, c, d)), a), d) == v6_add(p, b, c),
{
    lemma_v2_add4_cancel2(p, a.c0, b.c0, c.c0, d.c0);
    lemma_v2_add4_cancel2(p, a.c1, b.c1, c.c1, d.c1);
    lemma_v2_add4_cancel2(p, a.c2, b.c2, c.c2, d.c2);
}

} // verus!
