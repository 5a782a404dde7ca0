//! The mathematical model of a prime field: arithmetic on integers modulo a
//! positive modulus, together with the lemmas the executable engine's proofs
//! rest on. Every contract of the field and tower types is stated over these
//! functions.

use vstd::prelude::*;
use vstd::arithmetic::div_mod::*;
use vstd::arithmetic::mul::*;

verus! {

/// `2^64`, the weight of one limb and the Montgomery radix of the one-limb field.
pub open spec fn radix() -> int {
    0x1_0000_0000_0000_0000
}

/// A residue is in canonical range.
pub open spec fn f_valid(p: int, a: int) -> bool {
    0 <= a < p
}

/// Modular sum, reduced into `[0, p)`.
pub open spec fn fadd(p: int, a: int, b: int) -> int {
    (a + b) % p
}

/// Modular difference, reduced into `[0, p)`.
pub open spec fn fsub(p: int, a: int, b: int) -> int {
    (a - b) % p
}

/// Modular product, reduced into `[0, p)`.
pub open spec fn fmul(p: int, a: int, b: int) -> int {
    (a * b) % p
}

/// Modular additive inverse, reduced into `[0, p)`.
pub open spec fn fneg(p: int, a: int) -> int {
    (0 - a) % p
}

/// Modular exponentiation by a natural exponent.
pub open spec fn pow_mod(p: int, a: int, e: nat) -> int
    decreases e,
{
    if e == 0 {
        1int % p
    } else {
        fmul(p, a, pow_mod(p, a, (e - 1) as nat))
    }
}

/// A modular result is always canonical.
pub proof fn lemma_f_bound(p: int, x: int)
    requires
        p > 0,
    ensures
        0 <= x % p < p,
{
    lemma_mod_division_less_than_divisor(x, p);
}

/// Adding residues of `x` and `y` is adding `x` and `y`.
pub proof fn lemma_fadd_mods(p: int, x: int, y: int)
    requires
        p > 0,
    ensures
        (x % p + y % p) % p == (x + y) % p,
{
    lemma_add_mod_noop(x, y, p);
}

/// Subtracting residues of `x` and `y` is subtracting `x` and `y`.
pub proof fn lemma_fsub_mods(p: int, x: int, y: int)
    requires
        p > 0,
    ensures
        (x % p - y % p) % p == (x - y) % p,
{
    lemma_sub_mod_noop(x, y, p);
}

/// Multiplying residues of `x` and `y` is multiplying `x` and `y`.
pub proof fn lemma_fmul_mods(p: int, x: int, y: int)
    requires
        p > 0,
    ensures
        ((x % p) * (y % p)) % p == (x * y) % p,
{
    lemma_mul_mod_noop(x, y, p);
}

/// A canonical value is its own residue.
pub proof fn lemma_f_small(p: int, x: int)
    requires
        p > 0,
        0 <= x < p,
    ensures
        x % p == x,
{
    lemma_small_mod(x as nat, p as nat);
}

/// Addition in the field is commutative.
pub proof fn lemma_fadd_comm(p: int, a: int, b: int)
    requires
        p > 0,
    ensures
        fadd(p, a, b) == fadd(p, b, a),
{
}

/// Addition in the field is associative.
pub proof fn lemma_fadd_assoc(p: int, a: int, b: int, c: int)
    requires
        p > 0,
        f_valid(p, a),
        f_valid(p, b),
        f_valid(p, c),
    ensures
        fadd(p, fadd(p, a, b), c) == fadd(p, a, fadd(p, b, c)),
{
    lemma_f_small(p, a);
    lemma_f_small(p, b);
    lemma_f_small(p, c);
    lemma_fadd_mods(p, a + b, c);
    lemma_fadd_mods(p, a, b + c);
    lemma_fadd_mods(p, a, b);
    lemma_fadd_mods(p, b, c);
}

/// Zero is the additive identity.
pub proof fn lemma_fadd_zero(p: int, a: int)
    requires
        p > 0,
        f_valid(p, a),
    ensures
        fadd(p, a, 0) == a,
{
    lemma_f_small(p, a);
}

/// Every element and its negation sum to zero.
pub proof fn lemma_fadd_neg(p: int, a: int)
    requires
        p > 0,
        f_valid(p, a),
    ensures
        fadd(p, a, fneg(p, a)) == 0,
{
    lemma_f_bound(p, -a);
    lemma_fadd_mods(p, a, -a);
    lemma_f_small(p, a);
    lemma_mod_self_0(p);
    assert((a + (-a)) % p == 0) by {
        lemma_small_mod(0nat, p as nat);
    }
    lemma_fadd_mods(p, a, (0 - a) % p);
    assert((a + ((0 - a) % p)) % p == (a + (0 - a)) % p) by {
        lemma_f_small(p, a);
        lemma_add_mod_noop(a, 0 - a, p);
    }
}

/// Multiplication in the field is commutative.
pub proof fn lemma_fmul_comm(p: int, a: int, b: int)
    requires
        p > 0,
    ensures
        fmul(p, a, b) == fmul(p, b, a),
{
    lemma_mul_is_commutative(a, b);
}

/// Multiplication in the field is associative.
pub proof fn lemma_fmul_assoc(p: int, a: int, b: int, c: int)
    requires
        p > 0,
        f_valid(p, a),
        f_valid(p, b),
        f_valid(p, c),
    ensures
        fmul(p, fmul(p, a, b), c) == fmul(p, a, fmul(p, b, c)),
{
    lemma_f_small(p, a);
    lemma_f_small(p, b);
    lemma_f_small(p, c);
    lemma_fmul_mods(p, a * b, c);
    lemma_fmul_mods(p, a, b * c);
    lemma_mul_is_associative(a, b, c);
}

/// One is the multiplicative identity.
pub proof fn lemma_fmul_one(p: int, a: int)
    requires
        p > 1,
        f_valid(p, a),
    ensures
        fmul(p, a, 1) == a,
{
    lemma_f_small(p, a);
}

/// Multiplication distributes over addition.
pub proof fn lemma_fmul_dist(p: int, a: int, b: int, c: int)
    requires
        p > 0,
        f_valid(p, a),
        f_valid(p, b),
        f_valid(p, c),
    ensures
        fmul(p, a, fadd(p, b, c)) == fadd(p, fmul(p, a, b), fmul(p, a, c)),
{
    lemma_f_small(p, a);
    lemma_f_small(p, b);
    lemma_f_small(p, c);
    lemma_fmul_mods(p, a, b + c);
    lemma_mul_is_distributive_add(a, b, c);
    lemma_fadd_mods(p, a * b, a * c);
}

/// Halving a congruence: from `2x == 2y (mod p)` with `p` odd, `x == y (mod p)`.
pub proof fn lemma_cancel_two(p: int, x: int, y: int)
    requires
        p > 0,
        p % 2 == 1,
        (2 * x) % p == (2 * y) % p,
    ensures
        x % p == y % p,
{
    let d = 2 * x - 2 * y;
    lemma_fsub_mods(p, 2 * x, 2 * y);
    lemma_small_mod(0nat, p as nat);
    assert(d % p == 0);
    lemma_fundamental_div_mod(d, p);
    let q = d / p;
    assert(d == p * q);
    assert(d == 2 * (x - y)) by {
        lemma_mul_is_distributive_sub(2, x, y);
    }
    // p odd and p * q even forces q even.
    assert(q % 2 == 0) by {
        if q % 2 == 1 {
            lemma_fundamental_div_mod(q, 2);
            assert(q == 2 * (q / 2) + 1);
            assert(p * q == p * (2 * (q / 2) + 1));
            lemma_fundamental_div_mod(p, 2);
            assert(p == 2 * (p / 2) + 1);
            let pi = p / 2;
            let qi = q / 2;
            assert(p * q == 2 * (2 * pi * qi + pi + qi) + 1) by (nonlinear_arith)
                requires
                    p == 2 * pi + 1,
                    q == 2 * qi + 1,
            ;
            let k = 2 * pi * qi + pi + qi;
            lemma_mod_multiples_vanish(k, 1, 2);
            assert(p * q % 2 == 1);
            assert(p * q == 2 * (x - y));
            assert((2 * (x - y)) % 2 == 0) by (nonlinear_arith);
        } else {
            lemma_mod_division_less_than_divisor(q, 2);
        }
    }
    lemma_fundamental_div_mod(q, 2);
    let h = q / 2;
    assert(q == 2 * h);
    assert(2 * (x - y) == p * (2 * h));
    assert(x - y == p * h) by (nonlinear_arith)
        requires
            2 * (x - y) == p * (2 * h),
    ;
    lemma_mod_multiples_vanish(h, y, p);
    assert((p * h + y) % p == y % p);
    assert(x == p * h + y);
}

/// Congruence is preserved by multiplying both sides by the same factor.
pub proof fn lemma_cong_scale(p: int, x: int, y: int, k: int)
    requires
        p > 0,
        x % p == y % p,
    ensures
        (x * k) % p == (y * k) % p,
{
    lemma_mul_mod_noop_left(x, k, p);
    lemma_mul_mod_noop_left(y, k, p);
}

/// Unfolding one squaring step of the exponentiation: for an even exponent,
/// `a^e == (a*a)^(e/2)` in the field.
pub proof fn lemma_pow_mod_even(p: int, a: int, e: nat)
    requires
        p > 1,
        f_valid(p, a),
        e % 2 == 0,
    ensures
        pow_mod(p, a, e) == pow_mod(p, fmul(p, a, a), e / 2),
    decreases e,
{
    if e == 0 {
    } else {
        let aa = fmul(p, a, a);
        lemma_f_bound(p, a * a);
        lemma_pow_mod_even(p, a, (e - 2) as nat);
        // pow(a, e) == a * (a * pow(a, e-2))
        assert(pow_mod(p, a, e) == fmul(p, a, pow_mod(p, a, (e - 1) as nat)));
        assert(pow_mod(p, a, (e - 1) as nat) == fmul(p, a, pow_mod(p, a, (e - 2) as nat)));
        assert(pow_mod(p, a, e) == fmul(p, a, fmul(p, a, pow_mod(p, a, (e - 2) as nat))));
        let t = pow_mod(p, a, (e - 2) as nat);
        lemma_pow_mod_valid(p, a, (e - 2) as nat);
        lemma_fmul_assoc(p, a, a, t);
        assert(fmul(p, a, fmul(p, a, t)) == fmul(p, fmul(p, a, a), t));
        assert(pow_mod(p, aa, e / 2) == fmul(p, aa, pow_mod(p, aa, (e / 2 - 1) as nat)));
        assert((e - 2) / 2 == e / 2 - 1);
    }
}

/// The result of modular exponentiation is canonical.
pub proof fn lemma_pow_mod_valid(p: int, a: int, e: nat)
    requires
        p > 1,
    ensures
        f_valid(p, pow_mod(p, a, e)),
    decreases e,
{
    if e == 0 {
        lemma_small_mod(1nat, p as nat);
    } else {
        lemma_f_bound(p, a * pow_mod(p, a, (e - 1) as nat));
    }
}


/// Associativity of the modular product, for arbitrary integers.
pub proof fn lemma_fmul_assoc_general(p: int, a: int, b: int, c: int)
    requires
        p > 0,
    ensures
        fmul(p, a, fmul(p, b, c)) == fmul(p, fmul(p, a, b), c),
{
    lemma_mul_mod_noop_right(a, b * c, p);
    lemma_mul_mod_noop_left(a * b, c, p);
    lemma_mul_is_associative(a, b, c);
}

/// Four modular factors, regrouped.
pub proof fn lemma_fmul4_swap(p: int, a: int, b: int, c: int, d: int)
    requires
        p > 0,
    ensures
        fmul(p, fmul(p, a, b), fmul(p, c, d)) == fmul(p, fmul(p, a, c), fmul(p, b, d)),
{
    lemma_mul_mod_noop(a * b, c * d, p);
    lemma_mul_mod_noop(a * c, b * d, p);
    assert((a * b) * (c * d) == (a * c) * (b * d)) by (nonlinear_arith);
}

/// Exponents add: a power of a sum is the product of the powers.
pub proof fn lemma_pow_mod_adds(p: int, a: int, m: nat, n: nat)
    requires
        p > 1,
    ensures
        pow_mod(p, a, m + n) == fmul(p, pow_mod(p, a, m), pow_mod(p, a, n)),
    decreases n,
{
    lemma_pow_mod_valid(p, a, m);
    if n == 0 {
        lemma_f_small(p, 1);
        lemma_fmul_one(p, pow_mod(p, a, m));
    } else {
        lemma_pow_mod_adds(p, a, m, (n - 1) as nat);
        assert(pow_mod(p, a, m + n) == fmul(p, a, pow_mod(p, a, (m + n - 1) as nat)));
        assert(pow_mod(p, a, n) == fmul(p, a, pow_mod(p, a, (n - 1) as nat)));
        // shuffle the loose base factor across the split
        let x = pow_mod(p, a, m);
        let y = pow_mod(p, a, (n - 1) as nat);
        lemma_fmul_assoc_general(p, a, x, y);
        lemma_fmul_comm(p, a, x);
        lemma_fmul_assoc_general(p, x, a, y);
    }
}

/// Exponents multiply: a power of a power is the power of the product.
pub proof fn lemma_pow_mod_mul(p: int, a: int, m: nat, n: nat)
    requires
        p > 1,
    ensures
        pow_mod(p, a, m * n) == pow_mod(p, pow_mod(p, a, m), n),
    decreases n,
{
    if n == 0 {
        assert(m * 0 == 0) by (nonlinear_arith);
    } else {
        lemma_pow_mod_mul(p, a, m, (n - 1) as nat);
        assert(m * n == m * (n - 1) + m) by (nonlinear_arith);
        lemma_pow_mod_adds(p, a, m * (n - 1) as nat, m);
        assert(pow_mod(p, pow_mod(p, a, m), n) == fmul(
            p,
            pow_mod(p, a, m),
            pow_mod(p, pow_mod(p, a, m), (n - 1) as nat),
        ));
        lemma_fmul_comm(p, pow_mod(p, a, m * (n - 1) as nat), pow_mod(p, a, m));
    }
}

/// A power of a modular product is the product of the powers.
pub proof fn lemma_pow_mod_product(p: int, x: int, y: int, n: nat)
    requires
        p > 1,
    ensures
        pow_mod(p, fmul(p, x, y), n) == fmul(p, pow_mod(p, x, n), pow_mod(p, y, n)),
    decreases n,
{
    if n == 0 {
        lemma_f_small(p, 1);
        assert(pow_mod(p, fmul(p, x, y), 0) == 1);
        assert(pow_mod(p, x, 0) == 1);
        assert(pow_mod(p, y, 0) == 1);
        assert(fmul(p, 1, 1) == 1) by {
            assert(1int * 1 == 1);
        }
    } else {
        lemma_pow_mod_product(p, x, y, (n - 1) as nat);
        let px = pow_mod(p, x, (n - 1) as nat);
        let py = pow_mod(p, y, (n - 1) as nat);
        assert(pow_mod(p, fmul(p, x, y), n) == fmul(
            p,
            fmul(p, x, y),
            pow_mod(p, fmul(p, x, y), (n - 1) as nat),
        ));
        assert(pow_mod(p, fmul(p, x, y), (n - 1) as nat) == fmul(p, px, py));
        lemma_fmul4_swap(p, x, y, px, py);
        assert(pow_mod(p, x, n) == fmul(p, x, px));
        assert(pow_mod(p, y, n) == fmul(p, y, py));
        assert(pow_mod(p, fmul(p, x, y), n) == fmul(p, fmul(p, x, px), fmul(p, y, py)));
    }
}

/// Any positive power of zero is zero.
pub proof fn lemma_pow_mod_zero_base(p: int, n: nat)
    requires
        p > 1,
        n >= 1,
    ensures
        pow_mod(p, 0, n) == 0,
{
    let rest = pow_mod(p, 0, (n - 1) as nat);
    assert(pow_mod(p, 0, n) == fmul(p, 0, rest));
    assert(0 * rest == 0) by (nonlinear_arith);
    lemma_f_small(p, 0);
}

/// The first power of a canonical residue is itself.
pub proof fn lemma_pow_mod_one_exp(p: int, a: int)
    requires
        p > 1,
        f_valid(p, a),
    ensures
        pow_mod(p, a, 1) == a,
{
    lemma_f_small(p, 1);
    assert(pow_mod(p, a, 0) == 1int % p);
    assert(pow_mod(p, a, 1) == fmul(p, a, pow_mod(p, a, 0)));
    assert(pow_mod(p, a, 1) == fmul(p, a, 1));
    lemma_fmul_one(p, a);
}

} // verus!
