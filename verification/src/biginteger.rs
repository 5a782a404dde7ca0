//! The fixed-width unsigned integer under the field engine: a little-first
//! sequence of 64-bit limbs with carry and borrow arithmetic, shifting,
//! parity, and comparison. No operation reduces modulo anything; that is
//! the field's concern. Every contract is stated over the integer the
//! limbs hold.

use vstd::prelude::*;
use vstd::arithmetic::div_mod::{
    lemma_fundamental_div_mod, lemma_fundamental_div_mod_converse, lemma_mod_multiples_vanish,
};
use crate::fp::{two_pow, lemma_two_pow_pos, lemma_two_pow_64};
use crate::codec::{
    le_bytes_val, lemma_le_bytes_push, lemma_le_bytes_nonneg, lemma_two_pow_unfold8,
};

verus! {

/// The integer held by the limbs before `j` of a little-first sequence.
pub open spec fn prefix_val(s: Seq<u64>, j: int) -> int
    decreases j,
{
    if j <= 0 {
        0
    } else {
        prefix_val(s, j - 1) + s[j - 1] * two_pow((64 * (j - 1)) as nat)
    }
}

/// The integer held by a little-first limb sequence.
pub open spec fn limbs_val(s: Seq<u64>) -> int {
    prefix_val(s, s.len() as int)
}

/// A limb sequence holds a nonnegative integer.
pub proof fn lemma_prefix_nonneg(s: Seq<u64>, j: int)
    ensures
        prefix_val(s, j) >= 0,
    decreases j,
{
    if j > 0 {
        lemma_prefix_nonneg(s, j - 1);
        lemma_two_pow_pos((64 * (j - 1)) as nat);
        assert(s[j - 1] * two_pow((64 * (j - 1)) as nat) >= 0) by (nonlinear_arith)
            requires
                s[j - 1] >= 0,
                two_pow((64 * (j - 1)) as nat) >= 0,
        ;
    }
}

/// The parity of the whole value is the parity of its lowest limb.
pub proof fn lemma_prefix_parity(s: Seq<u64>, j: int)
    requires
        1 <= j <= s.len(),
    ensures
        prefix_val(s, j) % 2 == (s[0] as int) % 2,
    decreases j,
{
    if j == 1 {
        assert(prefix_val(s, 0) == 0);
        assert(prefix_val(s, 1) == 0 + s[0] * two_pow(0));
        assert(s[0] * 1 == s[0]) by (nonlinear_arith);
    } else {
        lemma_prefix_parity(s, j - 1);
        let w = two_pow((64 * (j - 1)) as nat);
        let half = two_pow((64 * (j - 1) - 1) as nat);
        assert(w == 2 * half);
        assert(s[j - 1] * (2 * half) == 2 * (s[j - 1] * half)) by (nonlinear_arith);
        lemma_mod_multiples_vanish(s[j - 1] * half, prefix_val(s, j - 1), 2);
    }
}

/// A prefix value depends only on the limbs it covers.
pub proof fn lemma_prefix_ext(s: Seq<u64>, t: Seq<u64>, j: int)
    requires
        forall|k: int| 0 <= k < j ==> s[k] == t[k],
    ensures
        prefix_val(s, j) == prefix_val(t, j),
    decreases j,
{
    if j > 0 {
        lemma_prefix_ext(s, t, j - 1);
    }
}

/// Appending a limb adds it at the next weight.
pub proof fn lemma_prefix_push(s: Seq<u64>, x: u64)
    ensures
        prefix_val(s.push(x), s.len() as int + 1) == prefix_val(s, s.len() as int) + x * two_pow(
            (64 * s.len()) as nat,
        ),
{
    let t = s.push(x);
    assert(prefix_val(t, s.len() as int + 1) == prefix_val(t, s.len() as int) + t[s.len() as int]
        * two_pow((64 * s.len()) as nat));
    lemma_prefix_ext(s, t, s.len() as int);
}

/// A prefix of `j` limbs stays below the `j`-limb weight.
pub proof fn lemma_prefix_bound(s: Seq<u64>, j: int)
    requires
        0 <= j <= s.len(),
    ensures
        prefix_val(s, j) < two_pow((64 * j) as nat),
    decreases j,
{
    lemma_two_pow_pos((64 * j) as nat);
    if j > 0 {
        lemma_prefix_bound(s, j - 1);
        let w = two_pow((64 * (j - 1)) as nat);
        lemma_two_pow_pos((64 * (j - 1)) as nat);
        assert(two_pow((64 * j) as nat) == 0x1_0000_0000_0000_0000 * w) by {
            lemma_two_pow_mul_64(((64 * (j - 1)) as nat));
        }
        assert(s[j - 1] * w <= (0x1_0000_0000_0000_0000 - 1) * w) by (nonlinear_arith)
            requires
                s[j - 1] <= 0x1_0000_0000_0000_0000 - 1,
                w >= 1,
        ;
        assert(prefix_val(s, j - 1) + (0x1_0000_0000_0000_0000 - 1) * w < 0x1_0000_0000_0000_0000
            * w) by (nonlinear_arith)
            requires
                prefix_val(s, j - 1) < w,
                w >= 1,
        ;
    }
}

/// One more limb of weight is a radix factor.
proof fn lemma_two_pow_mul_64(k: nat)
    ensures
        two_pow(k + 64) == 0x1_0000_0000_0000_0000 * two_pow(k),
    decreases k,
{
    if k == 0 {
        lemma_two_pow_64();
        assert(0x1_0000_0000_0000_0000 * 1 == 0x1_0000_0000_0000_0000) by (nonlinear_arith);
    } else {
        lemma_two_pow_mul_64((k - 1) as nat);
        assert(two_pow(k + 64) == 2 * two_pow((k + 63) as nat));
        assert(2 * (0x1_0000_0000_0000_0000 * two_pow((k - 1) as nat)) == 0x1_0000_0000_0000_0000
            * (2 * two_pow((k - 1) as nat))) by (nonlinear_arith);
    }
}

/// With the suffixes above `j` equal, a smaller limb at `j` makes the whole
/// prefix smaller, whatever stands below it.
proof fn lemma_prefix_lt(s: Seq<u64>, t: Seq<u64>, j: int, m: int)
    requires
        0 <= j < m,
        m <= s.len(),
        m <= t.len(),
        forall|k: int| j < k < m ==> s[k] == t[k],
        s[j] < t[j],
    ensures
        prefix_val(s, m) < prefix_val(t, m),
    decreases m,
{
    if j == m - 1 {
        let w = two_pow((64 * j) as nat);
        lemma_prefix_bound(s, j);
        lemma_prefix_nonneg(t, j);
        lemma_two_pow_pos((64 * j) as nat);
        assert(prefix_val(s, j) + s[j] * w < t[j] * w) by (nonlinear_arith)
            requires
                prefix_val(s, j) < w,
                s[j] < t[j],
                w >= 1,
        ;
        assert(t[j] * w <= prefix_val(t, j) + t[j] * w);
    } else {
        lemma_prefix_lt(s, t, j, m - 1);
        assert(s[m - 1] == t[m - 1]);
    }
}

/// A value of all-zero limbs is zero, and a nonzero limb makes it positive.
proof fn lemma_prefix_zero(s: Seq<u64>, j: int)
    requires
        0 <= j <= s.len(),
    ensures
        (prefix_val(s, j) == 0) == (forall|k: int| 0 <= k < j ==> s[k] == 0),
    decreases j,
{
    if j > 0 {
        lemma_prefix_zero(s, j - 1);
        lemma_prefix_nonneg(s, j - 1);
        lemma_two_pow_pos((64 * (j - 1)) as nat);
        let w = two_pow((64 * (j - 1)) as nat);
        assert(s[j - 1] * w >= 0 && (s[j - 1] * w == 0) == (s[j - 1] == 0)) by (nonlinear_arith)
            requires
                s[j - 1] >= 0,
                w >= 1,
        ;
    }
}

/// A fixed-width unsigned integer of 64-bit limbs, little-limb first.
#[derive(Clone, PartialEq, Eq, Debug)]
pub struct BigInteger {
    /// The limbs, lowest first; the width is their count.
    pub limbs: Vec<u64>,
}

impl BigInteger {
    /// The integer this limb sequence holds.
    pub open spec fn value(self) -> int {
        limbs_val(self.limbs@)
    }

    /// How many limbs wide this integer is.
    pub open spec fn width(self) -> nat {
        self.limbs@.len()
    }

    /// Wrap a limb vector.
    pub fn new(limbs: Vec<u64>) -> (r: BigInteger)
        ensures
            r.limbs == limbs,
    {
        BigInteger { limbs }
    }

    /// The given word, widened to the given number of limbs.
    pub fn from_u64(x: u64, width: usize) -> (r: BigInteger)
        requires
            width >= 1,
        ensures
            r.width() == width,
            r.value() == x,
    {
        let mut limbs: Vec<u64> = Vec::new();
        limbs.push(x);
        proof {
            assert(prefix_val(limbs@, 0) == 0);
            assert(limbs@[0] == x);
            assert(two_pow(0) == 1);
            assert(x * 1 == x) by (nonlinear_arith);
        }
        let mut i: usize = 1;
        while i < width
            invariant
                1 <= i <= width,
                limbs@.len() == i,
                limbs_val(limbs@) == x,
            decreases width - i,
        {
            let ghost before = limbs@;
            limbs.push(0);
            proof {
                lemma_prefix_push(before, 0);
                assert(0int * two_pow((64 * before.len()) as nat) == 0) by (nonlinear_arith);
            }
            i = i + 1;
        }
        BigInteger { limbs }
    }

    /// Whether the integer is zero: all limbs vanish.
    pub fn is_zero(&self) -> (r: bool)
        ensures
            r == (self.value() == 0),
    {
        let n = self.limbs.len();
        let mut i: usize = 0;
        while i < n
            invariant
                i <= n,
                n == self.limbs@.len(),
                forall|k: int| 0 <= k < i ==> self.limbs@[k] == 0,
            decreases n - i,
        {
            if self.limbs[i] != 0 {
                proof {
                    lemma_prefix_zero(self.limbs@, n as int);
                }
                return false;
            }
            i = i + 1;
        }
        proof {
            lemma_prefix_zero(self.limbs@, n as int);
        }
        true
    }

    /// Whether the integer is even: the lowest limb decides.
    pub fn is_even(&self) -> (r: bool)
        requires
            self.width() >= 1,
        ensures
            r == (self.value() % 2 == 0),
    {
        proof {
            lemma_prefix_parity(self.limbs@, self.limbs@.len() as int);
        }
        self.limbs[0] % 2 == 0
    }

    /// Whether this integer is below another of the same width, by the
    /// lexicographic scan from the top limb.
    pub fn lt(&self, other: &BigInteger) -> (r: bool)
        requires
            self.width() == other.width(),
        ensures
            r == (self.value() < other.value()),
    {
        let n = self.limbs.len();
        let mut j = n;
        while j > 0
            invariant
                j <= n,
                n == self.limbs@.len(),
                n == other.limbs@.len(),
                forall|k: int| j <= k < n ==> self.limbs@[k] == other.limbs@[k],
            decreases j,
        {
            let a = self.limbs[j - 1];
            let b = other.limbs[j - 1];
            if a < b {
                proof {
                    lemma_prefix_lt(self.limbs@, other.limbs@, j as int - 1, n as int);
                }
                return true;
            }
            if a > b {
                proof {
                    lemma_prefix_lt(other.limbs@, self.limbs@, j as int - 1, n as int);
                }
                return false;
            }
            j = j - 1;
        }
        proof {
            assert(self.limbs@ =~= other.limbs@);
        }
        false
    }

    /// Limb-wise addition with carry propagation; the returned flag is the
    /// carry out of the top limb.
    pub fn add_with_carry(&mut self, other: &BigInteger) -> (carry: bool)
        requires
            old(self).width() == other.width(),
        ensures
            final(self).width() == old(self).width(),
            final(self).value() + (if carry {
                two_pow((64 * old(self).width()) as nat)
            } else {
                0
            }) == old(self).value() + other.value(),
    {
        let ghost av = self.limbs@;
        let ghost bv = other.limbs@;
        let n = self.limbs.len();
        let mut out: Vec<u64> = Vec::new();
        let mut c: u64 = 0;
        let mut i: usize = 0;
        while i < n
            invariant
                i <= n,
                n == av.len(),
                n == bv.len(),
                av == self.limbs@,
                bv == other.limbs@,
                out@.len() == i,
                c <= 1,
                prefix_val(out@, i as int) + c * two_pow((64 * i) as nat) == prefix_val(
                    av,
                    i as int,
                ) + prefix_val(bv, i as int),
            decreases n - i,
        {
            let t: u128 = (self.limbs[i] as u128) + (other.limbs[i] as u128) + (c as u128);
            proof {
                lemma_fundamental_div_mod(t as int, 0x1_0000_0000_0000_0000);
            }
            let limb: u64 = (t % 0x1_0000_0000_0000_0000u128) as u64;
            let cnew: u64 = (t / 0x1_0000_0000_0000_0000u128) as u64;
            let ghost outb = out@;
            out.push(limb);
            proof {
                lemma_carry_step(
                    av,
                    bv,
                    outb,
                    i as int,
                    c as int,
                    cnew as int,
                    limb,
                    t as int,
                );
            }
            c = cnew;
            i = i + 1;
        }
        self.limbs = out;
        proof {
            if c == 1 {
                assert(1int * two_pow((64 * n) as nat) == two_pow((64 * n) as nat))
                    by (nonlinear_arith);
            } else {
                assert(0int * two_pow((64 * n) as nat) == 0) by (nonlinear_arith);
            }
        }
        c == 1
    }

    /// Limb-wise subtraction with borrow propagation; the returned flag is
    /// the borrow out of the top limb.
    pub fn sub_with_borrow(&mut self, other: &BigInteger) -> (borrow: bool)
        requires
            old(self).width() == other.width(),
        ensures
            final(self).width() == old(self).width(),
            final(self).value() - (if borrow {
                two_pow((64 * old(self).width()) as nat)
            } else {
                0
            }) == old(self).value() - other.value(),
    {
        let ghost av = self.limbs@;
        let ghost bv = other.limbs@;
        let n = self.limbs.len();
        let mut out: Vec<u64> = Vec::new();
        let mut c: u64 = 0;
        let mut i: usize = 0;
        while i < n
            invariant
                i <= n,
                n == av.len(),
                n == bv.len(),
                av == self.limbs@,
                bv == other.limbs@,
                out@.len() == i,
                c <= 1,
                prefix_val(out@, i as int) - c * two_pow((64 * i) as nat) == prefix_val(
                    av,
                    i as int,
                ) - prefix_val(bv, i as int),
            decreases n - i,
        {
            let lhs: u128 = self.limbs[i] as u128;
            let rhs: u128 = (other.limbs[i] as u128) + (c as u128);
            let ghost outb = out@;
            let limb: u64;
            let cnew: u64;
            if lhs >= rhs {
                limb = (lhs - rhs) as u64;
                cnew = 0;
            } else {
                limb = ((lhs + 0x1_0000_0000_0000_0000u128) - rhs) as u64;
                cnew = 1;
            }
            out.push(limb);
            proof {
                lemma_borrow_step(av, bv, outb, i as int, c as int, cnew as int, limb);
            }
            c = cnew;
            i = i + 1;
        }
        self.limbs = out;
        proof {
            if c == 1 {
                assert(1int * two_pow((64 * n) as nat) == two_pow((64 * n) as nat))
                    by (nonlinear_arith);
            } else {
                assert(0int * two_pow((64 * n) as nat) == 0) by (nonlinear_arith);
            }
        }
        c == 1
    }

    /// Shift left by one bit; the returned flag is the bit shifted out of
    /// the top limb.
    pub fn mul2(&mut self) -> (carry: bool)
        ensures
            final(self).width() == old(self).width(),
            final(self).value() + (if carry {
                two_pow((64 * old(self).width()) as nat)
            } else {
                0
            }) == old(self).value() + old(self).value(),
    {
        let ghost av = self.limbs@;
        let n = self.limbs.len();
        let mut out: Vec<u64> = Vec::new();
        let mut c: u64 = 0;
        let mut i: usize = 0;
        while i < n
            invariant
                i <= n,
                n == av.len(),
                av == self.limbs@,
                out@.len() == i,
                c <= 1,
                prefix_val(out@, i as int) + c * two_pow((64 * i) as nat) == prefix_val(
                    av,
                    i as int,
                ) + prefix_val(av, i as int),
            decreases n - i,
        {
            let t: u128 = (self.limbs[i] as u128) + (self.limbs[i] as u128) + (c as u128);
            proof {
                lemma_fundamental_div_mod(t as int, 0x1_0000_0000_0000_0000);
            }
            let limb: u64 = (t % 0x1_0000_0000_0000_0000u128) as u64;
            let cnew: u64 = (t / 0x1_0000_0000_0000_0000u128) as u64;
            let ghost outb = out@;
            out.push(limb);
            proof {
                lemma_carry_step(av, av, outb, i as int, c as int, cnew as int, limb, t as int);
            }
            c = cnew;
            i = i + 1;
        }
        self.limbs = out;
        proof {
            if c == 1 {
                assert(1int * two_pow((64 * n) as nat) == two_pow((64 * n) as nat))
                    by (nonlinear_arith);
            } else {
                assert(0int * two_pow((64 * n) as nat) == 0) by (nonlinear_arith);
            }
        }
        c == 1
    }

    /// Shift right by one bit: the value is halved, rounding down.
    pub fn div2(&mut self)
        ensures
            final(self).width() == old(self).width(),
            final(self).value() == old(self).value() / 2,
    {
        let ghost av = self.limbs@;
        let n = self.limbs.len();
        let mut out: Vec<u64> = Vec::new();
        let mut i: usize = 0;
        proof {
            if n > 0 {
                assert(two_pow(0) == 1);
                assert(((av[0] as int) % 2) * 1 == (av[0] as int) % 2) by (nonlinear_arith);
            }
        }
        while i < n
            invariant
                i <= n,
                n == av.len(),
                av == self.limbs@,
                out@.len() == i,
                2 * prefix_val(out@, i as int) + (if n > 0 {
                    (av[0] as int) % 2
                } else {
                    0
                }) == prefix_val(av, i as int) + (if i < n {
                    ((av[i as int] as int) % 2) * two_pow((64 * i) as nat)
                } else {
                    0
                }),
            decreases n - i,
        {
            let top: u64 = if i + 1 < n {
                (self.limbs[i + 1] % 2) * 0x8000_0000_0000_0000
            } else {
                0
            };
            let limb: u64 = self.limbs[i] / 2 + top;
            let ghost outb = out@;
            out.push(limb);
            proof {
                lemma_halve_step(av, outb, i as int, n as int, limb);
            }
            i = i + 1;
        }
        self.limbs = out;
        proof {
            if n > 0 {
                lemma_prefix_nonneg(out@, n as int);
                let r = (av[0] as int) % 2;
                assert(limbs_val(av) == limbs_val(out@) * 2 + r);
                lemma_fundamental_div_mod_converse(limbs_val(av), 2, limbs_val(out@), r);
            } else {
                assert(out@ =~= av);
            }
        }
    }
}

/// One limb of carry addition preserves the running equation.
proof fn lemma_carry_step(
    av: Seq<u64>,
    bv: Seq<u64>,
    outb: Seq<u64>,
    i: int,
    c: int,
    cnew: int,
    limb: u64,
    t: int,
)
    requires
        0 <= i < av.len(),
        i < bv.len(),
        outb.len() == i,
        0 <= c <= 1,
        t == av[i] + bv[i] + c,
        limb == t % 0x1_0000_0000_0000_0000,
        cnew == t / 0x1_0000_0000_0000_0000,
        prefix_val(outb, i) + c * two_pow((64 * i) as nat) == prefix_val(av, i) + prefix_val(
            bv,
            i,
        ),
    ensures
        0 <= cnew <= 1,
        prefix_val(outb.push(limb), i + 1) + cnew * two_pow((64 * (i + 1)) as nat) == prefix_val(
            av,
            i + 1,
        ) + prefix_val(bv, i + 1),
{
    let w = two_pow((64 * i) as nat);
    let wn = two_pow((64 * (i + 1)) as nat);
    lemma_prefix_push(outb, limb);
    assert(prefix_val(outb.push(limb), i + 1) == prefix_val(outb, i) + limb * w);
    lemma_fundamental_div_mod(t, 0x1_0000_0000_0000_0000);
    assert(t == 0x1_0000_0000_0000_0000 * cnew + limb);
    assert(wn == 0x1_0000_0000_0000_0000 * w) by {
        lemma_two_pow_mul_64((64 * i) as nat);
        assert((64 * (i + 1)) as nat == (64 * i) as nat + 64);
    }
    assert(prefix_val(av, i + 1) == prefix_val(av, i) + av[i] * w);
    assert(prefix_val(bv, i + 1) == prefix_val(bv, i) + bv[i] * w);
    // the per-limb identity, scaled to this limb's weight
    assert(limb * w + cnew * (0x1_0000_0000_0000_0000 * w) == av[i] * w + bv[i] * w + c * w)
        by (nonlinear_arith)
        requires
            t == 0x1_0000_0000_0000_0000 * cnew + limb,
            t == av[i] + bv[i] + c,
    ;
}

/// One limb of borrow subtraction preserves the running equation.
proof fn lemma_borrow_step(
    av: Seq<u64>,
    bv: Seq<u64>,
    outb: Seq<u64>,
    i: int,
    c: int,
    cnew: int,
    limb: u64,
)
    requires
        0 <= i < av.len(),
        i < bv.len(),
        outb.len() == i,
        0 <= c <= 1,
        0 <= cnew <= 1,
        limb - cnew * 0x1_0000_0000_0000_0000 == av[i] - bv[i] - c,
        prefix_val(outb, i) - c * two_pow((64 * i) as nat) == prefix_val(av, i) - prefix_val(
            bv,
            i,
        ),
    ensures
        prefix_val(outb.push(limb), i + 1) - cnew * two_pow((64 * (i + 1)) as nat) == prefix_val(
            av,
            i + 1,
        ) - prefix_val(bv, i + 1),
{
    let w = two_pow((64 * i) as nat);
    lemma_prefix_push(outb, limb);
    assert(prefix_val(outb.push(limb), i + 1) == prefix_val(outb, i) + limb * w);
    assert(two_pow((64 * (i + 1)) as nat) == 0x1_0000_0000_0000_0000 * w) by {
        lemma_two_pow_mul_64((64 * i) as nat);
        assert((64 * (i + 1)) as nat == (64 * i) as nat + 64);
    }
    assert(limb * w - cnew * (0x1_0000_0000_0000_0000 * w) == av[i] * w - bv[i] * w - c * w)
        by (nonlinear_arith)
        requires
            limb - cnew * 0x1_0000_0000_0000_0000 == av[i] - bv[i] - c,
    ;
}

/// One limb of halving preserves the running equation.
proof fn lemma_halve_step(av: Seq<u64>, outb: Seq<u64>, i: int, n: int, limb: u64)
    requires
        0 <= i < n,
        n == av.len(),
        outb.len() == i,
        limb == av[i] / 2 + (if i + 1 < n {
            ((av[i + 1] as int) % 2) * 0x8000_0000_0000_0000
        } else {
            0
        }),
        2 * prefix_val(outb, i) + (av[0] as int) % 2 == prefix_val(av, i) + ((av[i] as int) % 2)
            * two_pow((64 * i) as nat),
    ensures
        2 * prefix_val(outb.push(limb), i + 1) + (av[0] as int) % 2 == prefix_val(av, i + 1) + (
        if i + 1 < n {
            ((av[i + 1] as int) % 2) * two_pow((64 * (i + 1)) as nat)
        } else {
            0
        }),
{
    let w = two_pow((64 * i) as nat);
    let wn = two_pow((64 * (i + 1)) as nat);
    lemma_prefix_push(outb, limb);
    assert(prefix_val(outb.push(limb), i + 1) == prefix_val(outb, i) + limb * w);
    assert(wn == 0x1_0000_0000_0000_0000 * w) by {
        lemma_two_pow_mul_64((64 * i) as nat);
        assert((64 * (i + 1)) as nat == (64 * i) as nat + 64);
    }
    lemma_fundamental_div_mod(av[i] as int, 2);
    assert(prefix_val(av, i + 1) == prefix_val(av, i) + av[i] * w);
    if i + 1 < n {
        let nb = (av[i + 1] as int) % 2;
        assert(2 * (limb * w) == (av[i] - (av[i] as int) % 2) * w + nb * (0x1_0000_0000_0000_0000
            * w)) by (nonlinear_arith)
            requires
                limb == av[i] / 2 + nb * 0x8000_0000_0000_0000,
                av[i] == 2 * (av[i] / 2) + (av[i] as int) % 2,
        ;
        assert((av[i] - (av[i] as int) % 2) * w == av[i] * w - ((av[i] as int) % 2) * w)
            by (nonlinear_arith);
    } else {
        assert(2 * (limb * w) == (av[i] - (av[i] as int) % 2) * w) by (nonlinear_arith)
            requires
                limb == av[i] / 2,
                av[i] == 2 * (av[i] / 2) + (av[i] as int) % 2,
        ;
        assert((av[i] - (av[i] as int) % 2) * w == av[i] * w - ((av[i] as int) % 2) * w)
            by (nonlinear_arith);
    }
}


/// A little-endian byte value splits at any cut into the low bytes plus
/// the high bytes at their weight.
proof fn lemma_le_split(s: Seq<u8>, k: int)
    requires
        0 <= k <= s.len(),
    ensures
        le_bytes_val(s) == le_bytes_val(s.subrange(0, k)) + two_pow((8 * k) as nat) * le_bytes_val(
            s.subrange(k, s.len() as int),
        ),
    decreases k,
{
    if k == 0 {
        assert(s.subrange(0, 0) =~= Seq::<u8>::empty());
        assert(s.subrange(0, s.len() as int) =~= s);
        assert(two_pow(0) == 1);
        assert(1 * le_bytes_val(s) == le_bytes_val(s)) by (nonlinear_arith);
    } else {
        let tail = s.subrange(1, s.len() as int);
        lemma_le_split(tail, k - 1);
        assert(tail.subrange(0, k - 1) =~= s.subrange(0, k).subrange(1, k));
        assert(tail.subrange(k - 1, tail.len() as int) =~= s.subrange(k, s.len() as int));
        let low = s.subrange(0, k);
        assert(low[0] == s[0]);
        assert(le_bytes_val(low) == low[0] + 256 * le_bytes_val(low.subrange(1, k)));
        assert(le_bytes_val(s) == s[0] + 256 * le_bytes_val(tail));
        let w = two_pow((8 * (k - 1)) as nat);
        let hi = le_bytes_val(s.subrange(k, s.len() as int));
        assert(le_bytes_val(tail) == le_bytes_val(tail.subrange(0, k - 1)) + w * hi);
        assert(two_pow((8 * k) as nat) == 256 * w) by {
            lemma_two_pow_unfold8((8 * (k - 1)) as nat);
        }
        assert(256 * (le_bytes_val(tail.subrange(0, k - 1)) + w * hi) == 256 * le_bytes_val(
            tail.subrange(0, k - 1),
        ) + (256 * w) * hi) by (nonlinear_arith);
    }
}

impl BigInteger {
    /// The fixed-width little-endian byte writing: eight bytes per limb.
    pub fn to_bytes_le(&self) -> (r: Vec<u8>)
        ensures
            r@.len() == 8 * self.width(),
            le_bytes_val(r@) == self.value(),
    {
        let n = self.limbs.len();
        let mut out: Vec<u8> = Vec::new();
        let mut j: usize = 0;
        while j < n
            invariant
                j <= n,
                n == self.limbs@.len(),
                out@.len() == 8 * j,
                le_bytes_val(out@) == prefix_val(self.limbs@, j as int),
            decreases n - j,
        {
            let mut v: u64 = self.limbs[j];
            let mut i: usize = 0;
            proof {
                assert((8 * (8 * j)) as nat == (64 * j) as nat);
                lemma_two_pow_64();
            }
            while i < 8
                invariant
                    i <= 8,
                    j < n,
                    n == self.limbs@.len(),
                    out@.len() == 8 * j + i,
                    v < two_pow((64 - 8 * i) as nat),
                    le_bytes_val(out@) + v * two_pow((8 * (8 * j + i)) as nat) == prefix_val(
                        self.limbs@,
                        j as int,
                    ) + self.limbs@[j as int] * two_pow((64 * j) as nat),
                decreases 8 - i,
            {
                let b: u8 = (v % 256) as u8;
                let ghost outb = out@;
                let ghost w = two_pow((8 * (8 * j + i)) as nat);
                out.push(b);
                proof {
                    lemma_le_bytes_push(outb, b);
                    lemma_fundamental_div_mod(v as int, 256);
                    lemma_two_pow_unfold8((8 * (8 * j + i)) as nat);
                    assert((8 * (8 * j + i)) as nat + 8 == (8 * (8 * j + i + 1)) as nat);
                    assert((256 * (v as int / 256) + (v as int % 256)) * w == (v as int / 256) * (
                    256 * w) + (v as int % 256) * w) by (nonlinear_arith);
                    assert(v as int / 256 < two_pow((64 - 8 * (i + 1)) as nat)) by {
                        lemma_two_pow_unfold8((64 - 8 * (i + 1)) as nat);
                        assert((64 - 8 * (i + 1)) as nat + 8 == (64 - 8 * i) as nat);
                        assert((v as int) < 256 * two_pow((64 - 8 * (i + 1)) as nat));
                        assert(v as int / 256 < two_pow((64 - 8 * (i + 1)) as nat))
                            by (nonlinear_arith)
                            requires
                                (v as int) < 256 * two_pow((64 - 8 * (i + 1)) as nat),
                                v as int >= 0,
                                256 * (v as int / 256) <= v as int,
                        ;
                    }
                }
                v = v / 256;
                i = i + 1;
            }
            proof {
                assert(two_pow(0) == 1);
                assert(v == 0);
                assert((0int) * two_pow((8 * (8 * j + 8)) as nat) == 0) by (nonlinear_arith);
                assert(prefix_val(self.limbs@, j as int + 1) == prefix_val(self.limbs@, j as int)
                    + self.limbs@[j as int] * two_pow((64 * j) as nat));
            }
            j = j + 1;
        }
        out
    }

    /// Read a little-endian byte writing back into limbs; the byte count
    /// fixes the width and must be a whole number of limbs.
    pub fn from_bytes_le(bytes: &[u8]) -> (r: BigInteger)
        requires
            bytes@.len() % 8 == 0,
        ensures
            r.width() * 8 == bytes@.len(),
            r.value() == le_bytes_val(bytes@),
    {
        let ghost s = bytes@;
        let n = bytes.len();
        let m = n / 8;
        let mut limbs: Vec<u64> = Vec::new();
        let mut j: usize = 0;
        proof {
            assert(s.subrange(0, 0) =~= Seq::<u8>::empty());
        }
        while j < m
            invariant
                j <= m,
                m == n / 8,
                n == s.len(),
                n % 8 == 0,
                s == bytes@,
                limbs@.len() == j,
                prefix_val(limbs@, j as int) == le_bytes_val(s.subrange(0, 8 * j as int)),
            decreases m - j,
        {
            let mut acc: u128 = 0;
            let mut k: usize = 8;
            proof {
                assert(s.subrange(8 * j as int + 8, 8 * j as int + 8) =~= Seq::<u8>::empty());
            }
            while k > 0
                invariant
                    k <= 8,
                    j < m,
                    m == n / 8,
                    n % 8 == 0,
                    n == s.len(),
                    s == bytes@,
                    acc as int == le_bytes_val(s.subrange(8 * j as int + k as int, 8 * j as int
                        + 8)),
                    acc < two_pow((8 * (8 - k)) as nat),
                decreases k,
            {
                proof {
                    assert(8 * j + 8 <= n) by (nonlinear_arith)
                        requires
                            j < m,
                            m == n / 8,
                            n % 8 == 0,
                            n == 8 * (n / 8) + n % 8,
                    ;
                }
                let b = bytes[8 * j + k - 1];
                proof {
                    let lo = 8 * j as int + k as int;
                    let tail = s.subrange(lo, 8 * j as int + 8);
                    let full = s.subrange(lo - 1, 8 * j as int + 8);
                    assert(full.subrange(1, full.len() as int) =~= tail);
                    assert(full[0] == s[lo - 1]);
                    lemma_two_pow_unfold8((8 * (8 - k)) as nat);
                    lemma_le_bytes_nonneg(tail);
                    lemma_two_pow_mono_local((8 * (8 - k)) as nat, 56);
                    lemma_two_pow_unfold8(56);
                    lemma_two_pow_64();
                    assert((acc as int) * 256 <= (two_pow(56) - 1) * 256) by (nonlinear_arith)
                        requires
                            0 <= acc as int <= two_pow(56) - 1,
                    ;
                }
                acc = acc * 256 + (b as u128);
                k = k - 1;
            }
            proof {
                lemma_two_pow_64();
            }
            let limb: u64 = acc as u64;
            let ghost limbsb = limbs@;
            limbs.push(limb);
            proof {
                lemma_prefix_push(limbsb, limb);
                let cut = 8 * j as int;
                let upto = s.subrange(0, cut + 8);
                lemma_le_split(upto, cut);
                assert(upto.subrange(0, cut) =~= s.subrange(0, cut));
                assert(upto.subrange(cut, upto.len() as int) =~= s.subrange(cut, cut + 8));
                assert((8 * cut) as nat == (64 * j) as nat);
                assert(two_pow((64 * j) as nat) * (limb as int) == (limb as int) * two_pow(
                    (64 * j) as nat,
                )) by (nonlinear_arith);
            }
            j = j + 1;
        }
        proof {
            assert(s.subrange(0, 8 * m as int) =~= s) by {
                assert(8 * m as int == n) by (nonlinear_arith)
                    requires
                        m == n / 8,
                        n % 8 == 0,
                        n == 8 * (n / 8) + n % 8,
                ;
            }
        }
        BigInteger { limbs }
    }
}

/// Doubling is monotone in the exponent.
proof fn lemma_two_pow_mono_local(s1: nat, s2: nat)
    requires
        s1 <= s2,
    ensures
        two_pow(s1) <= two_pow(s2),
    decreases s2,
{
    if s2 > s1 {
        lemma_two_pow_mono_local(s1, (s2 - 1) as nat);
        lemma_two_pow_pos((s2 - 1) as nat);
    }
}

} // verus!
