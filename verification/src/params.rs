//! Building and validating a field parameter set at run time: primality by
//! trial division, the Montgomery constants by direct computation, and the
//! two-adic decomposition of `p - 1`. Everything the well-formedness
//! predicate promises is either computed exactly or checked before the set
//! is handed out.

use vstd::prelude::*;
use vstd::arithmetic::div_mod::{
    lemma_fundamental_div_mod, lemma_mod_multiples_basic, lemma_small_mod,
};
use crate::arith::{radix, pow_mod, lemma_f_bound, lemma_f_small, lemma_pow_mod_zero_base};
use crate::fp::{Fp, FpParams, two_pow, is_prime, lemma_two_pow_pos, lemma_two_pow_mono, lemma_two_pow_64};

verus! {

/// An odd number has no even divisor.
proof fn lemma_no_even_divisor(p: int, e: int)
    requires
        p % 2 == 1,
        e >= 2,
        e % 2 == 0,
    ensures
        p % e != 0,
{
    if p % e == 0 {
        lemma_fundamental_div_mod(p, e);
        lemma_fundamental_div_mod(e, 2);
        let k = p / e;
        let h = e / 2;
        assert(p == 2 * (h * k)) by (nonlinear_arith)
            requires
                p == e * k + 0,
                e == 2 * h + 0,
        ;
        lemma_mod_multiples_basic(h * k, 2);
        assert(p % 2 == 0) by {
            assert(p == (h * k) * 2);
        }
    }
}

/// Trial division up to the square root decides primality: a divisor at or
/// above the root pairs with one below it.
proof fn lemma_trial_division(p: int, d: int)
    requires
        p > 2,
        p % 2 == 1,
        d >= 3,
        d * d > p,
        forall|e: int| 2 <= e < d ==> #[trigger] (p % e) != 0,
    ensures
        is_prime(p),
{
    assert forall|e: int| 2 <= e < p implies #[trigger] (p % e) != 0 by {
        if p % e == 0 && e >= d {
            lemma_fundamental_div_mod(p, e);
            let f = p / e;
            assert(p == e * f);
            assert(f >= 2) by (nonlinear_arith)
                requires
                    p == e * f,
                    2 <= e < p,
                    f >= 0,
            ;
            assert(f < d) by (nonlinear_arith)
                requires
                    p == e * f,
                    e >= d,
                    d * d > p,
                    f >= 2,
                    d > 0,
            ;
            assert(p % f == 0) by {
                lemma_mod_multiples_basic(e, f);
                assert(p == e * f);
            }
        }
    }
}

/// Raw modular exponentiation on limbs, used only to propose candidate
/// constants that are then checked; nothing is claimed of the value.
fn pow_raw(base: u64, exp: u64, p: u64) -> (r: u64)
    requires
        p > 1,
    ensures
        r < p,
{
    let mut result: u64 = 1;
    let mut b: u64 = base % p;
    let mut e = exp;
    while e > 0
        invariant
            p > 1,
            result < p,
            b < p,
        decreases e,
    {
        proof {
            assert((result as int) * (b as int) <= 0xffff_ffff_ffff_ffff * 0xffff_ffff_ffff_ffff)
                by (nonlinear_arith)
                requires
                    result <= 0xffff_ffff_ffff_ffffu64,
                    b <= 0xffff_ffff_ffff_ffffu64,
            ;
            assert((b as int) * (b as int) <= 0xffff_ffff_ffff_ffff * 0xffff_ffff_ffff_ffff)
                by (nonlinear_arith)
                requires
                    b <= 0xffff_ffff_ffff_ffffu64,
            ;
        }
        if e % 2 == 1 {
            result = (((result as u128) * (b as u128)) % (p as u128)) as u64;
        }
        b = (((b as u128) * (b as u128)) % (p as u128)) as u64;
        e = e / 2;
    }
    result
}

impl FpParams {
    /// Assemble the parameter set of the field of the given odd prime
    /// modulus, with the given multiplicative generator (as a plain
    /// integer). Returns nothing when the modulus is out of range, even
    /// or composite, when the generator is not a nonzero residue, or when
    /// a computed Montgomery constant fails its defining check.
    pub fn new(modulus: u64, generator: u64) -> (r: Option<FpParams>)
        ensures
            match r {
                Some(pp) => {
                    &&& pp.wf()
                    &&& pp.modulus == modulus
                    &&& (Fp { repr: pp.generator }).abs(pp) == generator
                    &&& (Fp { repr: pp.root_of_unity }).abs(pp) == pow_mod(
                        modulus as int,
                        generator as int,
                        pp.trace as nat,
                    )
                },
                None => true,
            },
            (modulus <= 2 || modulus >= 0x8000_0000_0000_0000 || modulus % 2 == 0 || !is_prime(
                modulus as int,
            ) || generator == 0 || generator >= modulus) ==> r is None,
    {
        if modulus <= 2 || modulus >= 0x8000_0000_0000_0000 || modulus % 2 == 0 {
            return None;
        }
        if generator == 0 || generator >= modulus {
            return None;
        }
        let p = modulus;
        let ghost pi = p as int;
        // primality by trial division over the odd candidates
        let mut d: u64 = 3;
        while d <= p / d
            invariant
                pi == p as int,
                2 < p < 0x8000_0000_0000_0000,
                p % 2 == 1,
                3 <= d,
                d % 2 == 1,
                d <= p,
                forall|e: int| 2 <= e < d ==> #[trigger] ((p as int) % e) != 0,
            decreases p - d,
        {
            proof {
                lemma_fundamental_div_mod(pi, d as int);
                assert(d as int * d as int <= pi) by (nonlinear_arith)
                    requires
                        d as int <= pi / (d as int),
                        pi == (d as int) * (pi / (d as int)) + pi % (d as int),
                        0 <= pi % (d as int),
                        d > 0,
                ;
            }
            if p % d == 0 {
                return None;
            }
            proof {
                lemma_no_even_divisor(pi, d as int + 1);
                assert(d as int + 2 <= pi) by (nonlinear_arith)
                    requires
                        (d as int) * (d as int) <= pi,
                        3 <= d as int,
                ;
            }
            d = d + 2;
        }
        proof {
            lemma_fundamental_div_mod(pi, d as int);
            assert(d as int * d as int > pi) by (nonlinear_arith)
                requires
                    d as int > pi / (d as int),
                    pi == (d as int) * (pi / (d as int)) + pi % (d as int),
                    pi % (d as int) < d as int,
                    d > 0,
            ;
            lemma_no_even_divisor(pi, 2);
            lemma_trial_division(pi, d as int);
        }
        // Montgomery constants
        let r_m: u64 = (0x1_0000_0000_0000_0000u128 % (p as u128)) as u64;
        proof {
            lemma_f_bound(pi, radix());
            assert((r_m as int) * (r_m as int) < 0x1_0000_0000_0000_0000 * 0x1_0000_0000_0000_0000)
                by (nonlinear_arith)
                requires
                    0 <= (r_m as int) < 0x1_0000_0000_0000_0000,
            ;
        }
        let r2: u64 = (((r_m as u128) * (r_m as u128)) % (p as u128)) as u64;
        // the negated modulus inverse over the radix, by Newton doubling
        let mut x: u64 = 1;
        let mut it: u64 = 0;
        while it < 6
            invariant
                true,
            decreases 6 - it,
        {
            x = x.wrapping_mul(2u64.wrapping_sub(p.wrapping_mul(x)));
            it = it + 1;
        }
        let inv: u64 = 0u64.wrapping_sub(x);
        if p.wrapping_mul(inv) != 0xffff_ffff_ffff_ffffu64 {
            return None;
        }
        // the exit constant, proposed by Fermat exponentiation and checked
        let r_inv: u64 = pow_raw(r_m, p - 2, p);
        proof {
            assert((r_m as int) * (r_inv as int) < 0x1_0000_0000_0000_0000 * 0x1_0000_0000_0000_0000)
                by (nonlinear_arith)
                requires
                    0 <= (r_m as int) < 0x1_0000_0000_0000_0000,
                    0 <= (r_inv as int) < 0x1_0000_0000_0000_0000,
            ;
        }
        if (((r_m as u128) * (r_inv as u128)) % (p as u128)) != 1u128 {
            return None;
        }
        // the two-adic decomposition of p - 1
        let mut t: u64 = p - 1;
        let mut s: u64 = 0;
        let mut m: u64 = 1;
        while t % 2 == 0
            invariant
                pi == p as int,
                2 < p < 0x8000_0000_0000_0000,
                1 <= t,
                m == two_pow(s as nat),
                (t as int) * (m as int) == pi - 1,
                s < 64,
                s == 0 ==> t as int == pi - 1,
            decreases t,
        {
            let ghost t0 = t as int;
            let ghost m0 = m as int;
            proof {
                lemma_two_pow_pos(s as nat);
                assert(2 * m0 <= t0 * m0) by (nonlinear_arith)
                    requires
                        t0 >= 2,
                        m0 >= 1,
                ;
                assert((t0 / 2) * (2 * m0) == t0 * m0) by (nonlinear_arith)
                    requires
                        t0 % 2 == 0,
                        t0 == 2 * (t0 / 2),
                ;
                assert(s as nat + 1 < 64) by {
                    if s as nat + 1 >= 64 {
                        lemma_two_pow_mono(64, (s + 1) as nat);
                        lemma_two_pow_64();
                        lemma_two_pow_pos(s as nat);
                        assert(2 * m0 >= two_pow(64)) by {
                            assert(two_pow((s + 1) as nat) == 2 * two_pow(s as nat));
                            lemma_two_pow_mono(64, (s + 1) as nat);
                        }
                    }
                }
            }
            t = t / 2;
            m = m * 2;
            s = s + 1;
        }
        proof {
            // p - 1 is even, so at least one halving happened
            assert(s >= 1) by {
                if s == 0 {
                    lemma_fundamental_div_mod(pi, 2);
                    let h = pi / 2;
                    assert(pi - 1 == 2 * h);
                    lemma_mod_multiples_basic(h, 2);
                    assert((pi - 1) % 2 == 0) by {
                        assert(pi - 1 == h * 2);
                    }
                }
            }
        }
        // the bit length of the modulus, for the encoding shave count
        let mut width: u64 = 0;
        let mut cap: u128 = 1;
        while cap <= (p as u128)
            invariant
                2 < p < 0x8000_0000_0000_0000,
                cap == two_pow(width as nat),
                1 <= cap,
                cap <= 2 * (p as int),
                width < 64,
            decreases 2 * (p as int) - cap,
        {
            proof {
                assert(width as nat + 1 < 64) by {
                    if width as nat + 1 >= 64 {
                        lemma_two_pow_mono(64, (width + 1) as nat);
                        lemma_two_pow_64();
                        assert(two_pow((width + 1) as nat) == 2 * two_pow(width as nat));
                    }
                }
            }
            cap = cap * 2;
            width = width + 1;
        }
        let shave = 64 - width;
        // assemble with placeholder generator data, then fill it in with
        // verified field operations
        let pp0 = FpParams {
            modulus: p,
            r: r_m,
            r2,
            inv,
            r_inv,
            generator: r_m,
            root_of_unity: 0,
            two_adicity: s,
            trace: t,
            modulus_minus_one_div_two: (p - 1) / 2,
            repr_shave_bits: shave,
        };
        proof {
            lemma_f_bound(pi, radix());
            assert(r_m != 0 ==> true);
            assert(pp0.r == radix() % pi);
            assert(0 < pp0.generator < p) by {
                if r_m == 0 {
                    // the radix residue cannot vanish for an odd modulus
                    assert((pp0.r as int) == radix() % pi);
                    lemma_no_even_divisor(pi, 2);
                    lemma_radix_residue_nonzero(pi);
                }
            }
            assert(pp0.wf_arith());
        }
        let g = Fp::from_repr(generator, &pp0);
        proof {
            assert(g.repr != 0) by {
                if g.repr == 0 {
                    assert((0int * pp0.r_inv as int) == 0) by (nonlinear_arith);
                    lemma_f_small(pi, 0);
                }
            }
        }
        let root = g.pow(t, &pp0);
        // the count of squarings that must reach minus one: two to the s - 1
        let mut sm: u64 = 1;
        let mut halvings: u64 = 0;
        while halvings < s - 1
            invariant
                1 <= s < 64,
                halvings <= s - 1,
                sm == two_pow(halvings as nat),
            decreases s - 1 - halvings,
        {
            proof {
                lemma_two_pow_mono((halvings + 1) as nat, 63);
                lemma_two_pow_64();
                assert(two_pow(64nat) == 2 * two_pow(63nat));
                assert(two_pow((halvings + 1) as nat) == 2 * two_pow(halvings as nat));
            }
            sm = sm * 2;
            halvings = halvings + 1;
        }
        let c = root.pow(sm, &pp0);
        if c.into_repr(&pp0) != p - 1 {
            // the proposed generator is a square: its two-power tail is too
            // short to witness the full two-adicity
            return None;
        }
        proof {
            // the minus-one witness rules out a vanishing root of unity
            assert(root.repr != 0) by {
                if root.repr == 0 {
                    assert((0int * pp0.r_inv as int) == 0) by (nonlinear_arith);
                    lemma_f_small(pi, 0);
                    lemma_two_pow_pos((s - 1) as nat);
                    lemma_pow_mod_zero_base(pi, sm as nat);
                }
            }
        }
        let pp = FpParams { generator: g.repr, root_of_unity: root.repr, ..pp0 };
        proof {
            assert(pp.wf_arith());
            assert((Fp { repr: pp.generator }).abs(pp) == (Fp { repr: g.repr }).abs(pp0));
            assert((Fp { repr: pp.root_of_unity }).abs(pp) == root.abs(pp0));
            assert(pp.wf());
        }
        Some(pp)
    }
}

/// The radix leaves a nonzero residue on every odd modulus above one.
proof fn lemma_radix_residue_nonzero(p: int)
    requires
        p > 2,
        p % 2 == 1,
    ensures
        radix() % p != 0,
{
    lemma_two_pow_64();
    lemma_odd_not_divide_two_pow(p, 64);
}

/// No odd modulus above two divides a power of two: halving descends to one.
proof fn lemma_odd_not_divide_two_pow(p: int, s: nat)
    requires
        p > 2,
        p % 2 == 1,
    ensures
        two_pow(s) % p != 0,
    decreases s,
{
    let pw = two_pow(s);
    lemma_two_pow_pos(s);
    if pw % p == 0 {
        lemma_fundamental_div_mod(pw, p);
        let k = pw / p;
        assert(pw == p * k);
        if s == 0 {
            lemma_small_mod(1nat, p as nat);
        } else {
            let half = two_pow((s - 1) as nat);
            lemma_two_pow_pos((s - 1) as nat);
            assert(pw == 2 * half);
            assert(k % 2 == 0) by {
                if k % 2 == 1 {
                    lemma_fundamental_div_mod(k, 2);
                    lemma_fundamental_div_mod(p, 2);
                    let ph = p / 2;
                    let kh = k / 2;
                    assert(p * k == 2 * (2 * ph * kh + ph + kh) + 1) by (nonlinear_arith)
                        requires
                            p == 2 * ph + 1,
                            k == 2 * kh + 1,
                    ;
                    let w = 2 * ph * kh + ph + kh;
                    assert(pw % 2 == 0) by {
                        assert(pw == half * 2);
                        lemma_mod_multiples_basic(half, 2);
                    }
                    assert(pw % 2 == 1) by {
                        assert(pw == w * 2 + 1);
                        vstd::arithmetic::div_mod::lemma_mod_multiples_vanish(w, 1, 2);
                        lemma_small_mod(1nat, 2nat);
                    }
                } else {
                    lemma_fundamental_div_mod(k, 2);
                }
            }
            let kh = k / 2;
            assert(k == 2 * kh);
            assert(half == p * kh) by (nonlinear_arith)
                requires
                    2 * half == p * (2 * kh),
            ;
            assert(half % p == 0) by {
                lemma_mod_multiples_basic(kh, p);
                assert(half == kh * p);
            }
            lemma_odd_not_divide_two_pow(p, (s - 1) as nat);
        }
    }
}

} // verus!
