//! Byte and decimal-string codecs of the prime field. Bytes carry the
//! canonical (non-Montgomery) integer, little-endian and fixed width; a
//! blob whose value reaches the modulus is rejected rather than reduced.
//! The decimal grammar is a single zero or a nonzero leading digit
//! followed by digits, and the parsed value must lie below the modulus.

use vstd::prelude::*;
use vstd::arithmetic::div_mod::lemma_fundamental_div_mod;
use crate::arith::lemma_f_bound;
use crate::fp::{Fp, FpParams, two_pow, lemma_two_pow_pos, lemma_two_pow_mono, lemma_two_pow_64, lemma_abs_injective};
use vstd::string::StrSliceExecFns;
use vstd::string::StringExecFns;

verus! {

/// The first eight bytes of a sequence, padded with zeros.
pub open spec fn pad8(s: Seq<u8>) -> Seq<u8> {
    Seq::new(8, |i: int| if i < s.len() { s[i] } else { 0 })
}

/// The integer held by a little-endian byte sequence.
pub open spec fn le_bytes_val(s: Seq<u8>) -> int
    decreases s.len(),
{
    if s.len() == 0 {
        0
    } else {
        s[0] + 256 * le_bytes_val(s.subrange(1, s.len() as int))
    }
}

/// A decimal digit character.
pub open spec fn is_digit(c: char) -> bool {
    '0' <= c && c <= '9'
}

/// The value of a decimal digit character.
pub open spec fn digit_of(c: char) -> int {
    c as int - '0' as int
}

/// The canonical decimal grammar: digits only, no redundant leading zero.
pub open spec fn is_dec_str(s: Seq<char>) -> bool {
    &&& s.len() >= 1
    &&& forall|i: int| 0 <= i < s.len() ==> is_digit(#[trigger] s[i])
    &&& (s.len() > 1 ==> s[0] != '0')
}

/// The integer a digit string denotes.
pub open spec fn dec_val(s: Seq<char>) -> int
    decreases s.len(),
{
    if s.len() == 0 {
        0
    } else {
        dec_val(s.drop_last()) * 10 + digit_of(s.last())
    }
}

/// The digit character of a value below ten.
pub open spec fn digit_char(d: int) -> char {
    if d == 0 {
        '0'
    } else if d == 1 {
        '1'
    } else if d == 2 {
        '2'
    } else if d == 3 {
        '3'
    } else if d == 4 {
        '4'
    } else if d == 5 {
        '5'
    } else if d == 6 {
        '6'
    } else if d == 7 {
        '7'
    } else if d == 8 {
        '8'
    } else {
        '9'
    }
}

/// The canonical decimal writing of a nonnegative integer.
pub open spec fn dec_str(v: int) -> Seq<char>
    decreases v,
{
    if v < 10 {
        seq![digit_char(v)]
    } else {
        dec_str(v / 10).push(digit_char(v % 10))
    }
}

/// A digit string denotes a nonnegative integer.
proof fn lemma_dec_val_nonneg(s: Seq<char>)
    requires
        forall|i: int| 0 <= i < s.len() ==> is_digit(#[trigger] s[i]),
    ensures
        dec_val(s) >= 0,
    decreases s.len(),
{
    if s.len() > 0 {
        lemma_dec_val_nonneg(s.drop_last());
    }
}

/// Extending a digit string by one digit scales its value by ten.
proof fn lemma_dec_extend(s: Seq<char>, j: int)
    requires
        0 <= j < s.len(),
    ensures
        dec_val(s.subrange(0, j + 1)) == dec_val(s.subrange(0, j)) * 10 + digit_of(s[j]),
{
    let t = s.subrange(0, j + 1);
    assert(t.drop_last() =~= s.subrange(0, j));
    assert(t.last() == s[j]);
}

/// A digit string's prefixes never exceed it in value.
proof fn lemma_dec_prefix_le(s: Seq<char>, j: int)
    requires
        forall|i: int| 0 <= i < s.len() ==> is_digit(#[trigger] s[i]),
        0 <= j <= s.len(),
    ensures
        dec_val(s.subrange(0, j)) <= dec_val(s),
    decreases s.len() - j,
{
    if j == s.len() {
        assert(s.subrange(0, j) =~= s);
    } else {
        lemma_dec_prefix_le(s, j + 1);
        lemma_dec_extend(s, j);
        let vj = dec_val(s.subrange(0, j));
        assert(vj >= 0) by {
            lemma_dec_val_nonneg(s.subrange(0, j));
        }
        assert(vj <= vj * 10 + digit_of(s[j])) by (nonlinear_arith)
            requires
                vj >= 0,
                digit_of(s[j]) >= 0,
        ;
    }
}

/// The canonical writing round-trips: it is in the grammar, it denotes the
/// value it was written from, and a positive value never starts with zero.
pub proof fn lemma_decimal_round_trip(v: int)
    requires
        v >= 0,
    ensures
        is_dec_str(dec_str(v)),
        dec_val(dec_str(v)) == v,
        v >= 1 ==> dec_str(v)[0] != '0',
    decreases v,
{
    if v < 10 {
        let s = dec_str(v);
        assert(s.len() == 1);
        assert(s.last() == digit_char(v));
        assert(s.drop_last() =~= Seq::<char>::empty());
        assert(dec_val(Seq::<char>::empty()) == 0);
        assert(dec_val(s) == dec_val(s.drop_last()) * 10 + digit_of(s.last()));
    } else {
        lemma_fundamental_div_mod(v, 10);
        lemma_decimal_round_trip(v / 10);
        let s = dec_str(v);
        let head = dec_str(v / 10);
        assert(s == head.push(digit_char(v % 10)));
        assert(s.drop_last() =~= head);
        lemma_f_bound(10, v);
        assert(dec_val(s) == dec_val(head) * 10 + digit_of(digit_char(v % 10)));
        assert(dec_val(s) == (v / 10) * 10 + v % 10);
        assert(v == 10 * (v / 10) + v % 10);
        assert((v / 10) * 10 == 10 * (v / 10)) by (nonlinear_arith);
        assert(forall|i: int| 0 <= i < s.len() ==> is_digit(#[trigger] s[i])) by {
            assert(forall|i: int| 0 <= i < head.len() ==> s[i] == head[i]);
        }
    }
}

/// Appending a byte to a little-endian sequence adds it at the top weight.
pub proof fn lemma_le_bytes_push(s: Seq<u8>, b: u8)
    ensures
        le_bytes_val(s.push(b)) == le_bytes_val(s) + b * two_pow((8 * s.len()) as nat),
    decreases s.len(),
{
    let t = s.push(b);
    if s.len() == 0 {
        assert(t.subrange(1, 1) =~= Seq::<u8>::empty());
        assert(t[0] == b);
        assert(le_bytes_val(t.subrange(1, 1)) == 0);
        assert(le_bytes_val(t) == t[0] + 256 * le_bytes_val(t.subrange(1, t.len() as int)));
        assert(le_bytes_val(s) == 0);
        assert(two_pow((8 * s.len()) as nat) == 1);
        assert(b * 1 == b) by (nonlinear_arith);
    } else {
        assert(t.subrange(1, t.len() as int) =~= s.subrange(1, s.len() as int).push(b));
        lemma_le_bytes_push(s.subrange(1, s.len() as int), b);
        let rest = s.subrange(1, s.len() as int);
        let w = two_pow((8 * rest.len()) as nat);
        assert(two_pow((8 * s.len()) as nat) == 256 * w) by {
            lemma_two_pow_unfold8((8 * rest.len()) as nat);
        }
        assert(t[0] == s[0]);
        assert(le_bytes_val(t) == t[0] + 256 * le_bytes_val(t.subrange(1, t.len() as int)));
        assert(le_bytes_val(t) == s[0] + 256 * (le_bytes_val(rest) + b * w));
        assert(le_bytes_val(s) == s[0] + 256 * le_bytes_val(rest));
        assert(256 * (le_bytes_val(rest) + b * w) == 256 * le_bytes_val(rest) + b * (256 * w))
            by (nonlinear_arith);
        assert(le_bytes_val(t) == le_bytes_val(s) + b * (256 * w));
    }
}

/// Eight more doublings are one more byte of weight.
pub proof fn lemma_two_pow_unfold8(k: nat)
    ensures
        two_pow(k + 8) == 256 * two_pow(k),
{
    reveal_with_fuel(two_pow, 9);
    assert(two_pow(k + 8) == 2 * two_pow(k + 7));
    assert(two_pow(k + 7) == 2 * two_pow(k + 6));
    assert(two_pow(k + 6) == 2 * two_pow(k + 5));
    assert(two_pow(k + 5) == 2 * two_pow(k + 4));
    assert(two_pow(k + 4) == 2 * two_pow(k + 3));
    assert(two_pow(k + 3) == 2 * two_pow(k + 2));
    assert(two_pow(k + 2) == 2 * two_pow(k + 1));
    assert(two_pow(k + 1) == 2 * two_pow(k));
}

/// A little-endian byte value is nonnegative.
pub proof fn lemma_le_bytes_nonneg(s: Seq<u8>)
    ensures
        le_bytes_val(s) >= 0,
    decreases s.len(),
{
    if s.len() > 0 {
        lemma_le_bytes_nonneg(s.subrange(1, s.len() as int));
    }
}

impl Fp {
    /// The canonical byte encoding: eight little-endian bytes of the
    /// represented (non-Montgomery) integer.
    pub fn write(&self, pp: &FpParams) -> (r: Vec<u8>)
        requires
            pp.wf(),
            self.inv_holds(*pp),
        ensures
            r@.len() == 8,
            le_bytes_val(r@) == self.abs(*pp),
    {
        let mut v = self.into_repr(pp);
        let ghost val = self.abs(*pp);
        let mut out: Vec<u8> = Vec::new();
        let mut i: usize = 0;
        proof {
            assert(le_bytes_val(out@) == 0);
            assert(v * 1 == v) by (nonlinear_arith);
            lemma_two_pow_64();
        }
        while i < 8
            invariant
                i <= 8,
                out@.len() == i,
                val == le_bytes_val(out@) + (v as int) * two_pow((8 * i) as nat),
                v < two_pow((64 - 8 * i) as nat),
                0 <= val,
            decreases 8 - i,
        {
            let b: u8 = (v % 256) as u8;
            let ghost w = two_pow((8 * i) as nat);
            proof {
                lemma_le_bytes_push(out@, b);
                lemma_fundamental_div_mod(v as int, 256);
                assert((256 * (v as int / 256) + (v as int % 256)) * w == (v as int / 256) * (256
                    * w) + (v as int % 256) * w) by (nonlinear_arith);
                lemma_two_pow_unfold8((8 * i) as nat);
                // the shrinking bound on the remaining value
                assert(v as int / 256 < two_pow((64 - 8 * (i + 1)) as nat)) by {
                    assert(two_pow((64 - 8 * i) as nat) == 256 * two_pow((64 - 8 * (i + 1)) as nat))
                        by {
                        lemma_two_pow_unfold8((64 - 8 * (i + 1)) as nat);
                    }
                    assert((v as int) < 256 * two_pow((64 - 8 * (i + 1)) as nat));
                    assert(v as int / 256 < two_pow((64 - 8 * (i + 1)) as nat)) by (nonlinear_arith)
                        requires
                            (v as int) < 256 * two_pow((64 - 8 * (i + 1)) as nat),
                            v as int >= 0,
                            v as int / 256 <= v as int,
                            256 * (v as int / 256) <= v as int,
                    ;
                }
            }
            out.push(b);
            v = v / 256;
            i = i + 1;
        }
        proof {
            assert(two_pow(0) == 1);
            lemma_two_pow_pos(0);
            assert(v < 1);
            assert((0int) * 1 == 0) by (nonlinear_arith);
        }
        out
    }

    /// Decode eight little-endian bytes into a field element. A blob of
    /// the wrong width, or one whose integer reaches the modulus, is
    /// rejected: no out-of-range value is ever reduced into the field.
    pub fn read(bytes: &[u8], pp: &FpParams) -> (r: Result<Fp, ()>)
        requires
            pp.wf(),
        ensures
            match r {
                Ok(x) => {
                    &&& bytes@.len() == 8
                    &&& le_bytes_val(bytes@) < pp.modulus
                    &&& x.inv_holds(*pp)
                    &&& x.abs(*pp) == le_bytes_val(bytes@)
                },
                Err(_) => bytes@.len() != 8 || le_bytes_val(bytes@) >= pp.modulus,
            },
    {
        if bytes.len() != 8 {
            return Err(());
        }
        let ghost s = bytes@;
        let mut acc: u128 = 0;
        let mut j: usize = 8;
        proof {
            assert(s.subrange(8, 8) =~= Seq::<u8>::empty());
        }
        while j > 0
            invariant
                s == bytes@,
                s.len() == 8,
                j <= 8,
                acc as int == le_bytes_val(s.subrange(j as int, 8)),
                acc < two_pow((8 * (8 - j)) as nat),
            decreases j,
        {
            let b = bytes[j - 1];
            proof {
                let tail = s.subrange(j as int, 8);
                let full = s.subrange(j as int - 1, 8);
                assert(full.subrange(1, full.len() as int) =~= tail);
                assert(full[0] == s[j as int - 1]);
                lemma_two_pow_unfold8((8 * (8 - j)) as nat);
                lemma_le_bytes_nonneg(tail);
                lemma_two_pow_mono((8 * (8 - j)) as nat, 56);
                lemma_two_pow_unfold8(56);
                lemma_two_pow_64();
                assert((acc as int) * 256 <= (two_pow(56) - 1) * 256) by (nonlinear_arith)
                    requires
                        0 <= acc as int <= two_pow(56) - 1,
                ;
            }
            acc = acc * 256 + (b as u128);
            j = j - 1;
        }
        proof {
            assert(s.subrange(0, 8) =~= s);
            lemma_two_pow_64();
        }
        if acc < (pp.modulus as u128) {
            let x = Fp::from_repr(acc as u64, pp);
            Ok(x)
        } else {
            Err(())
        }
    }

    /// Interpret an untrusted byte blob as a field element: the first
    /// eight bytes (padded with zeros) are read little-endian, the top
    /// shave bits are masked off to guard against encodings above the
    /// modulus bit length, and anything still out of range is refused.
    pub fn from_random_bytes(bytes: &[u8], pp: &FpParams) -> (r: Option<Fp>)
        requires
            pp.wf(),
        ensures
            ({
                let masked = le_bytes_val(pad8(bytes@)) % two_pow(
                    (64 - pp.repr_shave_bits) as nat,
                );
                match r {
                    Some(x) => masked < pp.modulus && x.inv_holds(*pp) && x.abs(*pp) == masked,
                    None => masked >= pp.modulus,
                }
            }),
    {
        let ghost s = pad8(bytes@);
        let n = bytes.len();
        let mut acc: u128 = 0;
        let mut j: usize = 8;
        proof {
            assert(s.subrange(8, 8) =~= Seq::<u8>::empty());
        }
        while j > 0
            invariant
                s == pad8(bytes@),
                n == bytes@.len(),
                j <= 8,
                acc as int == le_bytes_val(s.subrange(j as int, 8)),
                acc < two_pow((8 * (8 - j)) as nat),
            decreases j,
        {
            let b: u8 = if j - 1 < n {
                bytes[j - 1]
            } else {
                0
            };
            proof {
                let tail = s.subrange(j as int, 8);
                let full = s.subrange(j as int - 1, 8);
                assert(full.subrange(1, full.len() as int) =~= tail);
                assert(full[0] == s[j as int - 1]);
                assert(s[j as int - 1] == b);
                lemma_two_pow_unfold8((8 * (8 - j)) as nat);
                lemma_le_bytes_nonneg(tail);
                lemma_two_pow_mono((8 * (8 - j)) as nat, 56);
                lemma_two_pow_unfold8(56);
                lemma_two_pow_64();
                assert((acc as int) * 256 <= (two_pow(56) - 1) * 256) by (nonlinear_arith)
                    requires
                        0 <= acc as int <= two_pow(56) - 1,
                ;
            }
            acc = acc * 256 + (b as u128);
            j = j - 1;
        }
        proof {
            assert(s.subrange(0, 8) =~= s);
            lemma_two_pow_64();
        }
        let v: u64 = acc as u64;
        // the modulus of the kept bits, two to the unshaved width
        let count = 64 - pp.repr_shave_bits;
        let mut m: u64 = 1;
        let mut i: u64 = 0;
        proof {
            lemma_two_pow_64();
        }
        while i < count
            invariant
                count <= 63,
                i <= count,
                m == two_pow(i as nat),
            decreases count - i,
        {
            proof {
                lemma_two_pow_mono((i + 1) as nat, 63);
                assert(two_pow(63nat) * 2 == two_pow(64nat));
                lemma_two_pow_64();
                assert(two_pow((i + 1) as nat) == 2 * two_pow(i as nat));
            }
            m = m * 2;
            i = i + 1;
        }
        let masked = v % m;
        proof {
            lemma_two_pow_pos(count as nat);
        }
        if masked < pp.modulus {
            Some(Fp::from_repr(masked, pp))
        } else {
            None
        }
    }

    /// Parse the canonical decimal writing of a field element. The empty
    /// string, a redundant leading zero, a non-digit, and a value reaching
    /// the modulus are all rejected.
    pub fn from_str(s: &str, pp: &FpParams) -> (r: Result<Fp, ()>)
        requires
            pp.wf(),
        ensures
            match r {
                Ok(x) => {
                    &&& is_dec_str(s@)
                    &&& dec_val(s@) < pp.modulus
                    &&& x.inv_holds(*pp)
                    &&& x.abs(*pp) == dec_val(s@)
                },
                Err(_) => !(is_dec_str(s@) && dec_val(s@) < pp.modulus),
            },
    {
        let n = s.unicode_len();
        if n == 0 {
            return Err(());
        }
        let first = s.get_char(0);
        if n > 1 && first == '0' {
            return Err(());
        }
        let mut acc: u64 = 0;
        let mut i: usize = 0;
        proof {
            assert(s@.subrange(0, 0) =~= Seq::<char>::empty());
        }
        while i < n
            invariant
                pp.wf(),
                n == s@.len(),
                n >= 1,
                i <= n,
                n > 1 ==> s@[0] != '0',
                forall|k: int| 0 <= k < i ==> is_digit(#[trigger] s@[k]),
                acc < pp.modulus,
                acc as int == dec_val(s@.subrange(0, i as int)),
            decreases n - i,
        {
            let c = s.get_char(i);
            if c < '0' || c > '9' {
                proof {
                    assert(!is_dec_str(s@));
                }
                return Err(());
            }
            let d: u64 = (c as u32 as u64) - 48;
            let t: u128 = (acc as u128) * 10 + (d as u128);
            proof {
                lemma_dec_extend(s@, i as int);
            }
            if t >= pp.modulus as u128 {
                proof {
                    // every extension of this prefix is at least as large
                    if is_dec_str(s@) {
                        lemma_dec_prefix_le(s@, i as int + 1);
                    }
                }
                return Err(());
            }
            acc = t as u64;
            i = i + 1;
        }
        proof {
            assert(s@.subrange(0, n as int) =~= s@);
        }
        let x = Fp::from_repr(acc, pp);
        Ok(x)
    }

    /// Write the canonical decimal form of the represented integer.
    pub fn to_decimal(&self, pp: &FpParams) -> (r: String)
        requires
            pp.wf(),
            self.inv_holds(*pp),
        ensures
            r@ == dec_str(self.abs(*pp)),
    {
        let mut v = self.into_repr(pp);
        let ghost val = self.abs(*pp);
        let mut digits: Vec<u64> = Vec::new();
        if v == 0 {
            digits.push(0);
            proof {
                assert(digits@.subrange(1, 1) =~= Seq::<u64>::empty());
                assert(digits@[0] == 0);
                assert(rev_chars(Seq::<u64>::empty()) =~= Seq::<char>::empty());
                assert(rev_chars(digits@) == rev_chars(digits@.subrange(1, 1)).push(
                    digit_char(digits@[0] as int),
                ));
                assert(rev_chars(digits@) =~= seq![digit_char(0)]);
            }
        } else {
            while v > 0
                invariant
                    0 <= val,
                    v >= 0,
                    v > 0 ==> dec_str(val) == dec_str(v as int) + rev_chars(digits@),
                    v == 0 ==> dec_str(val) == rev_chars(digits@),
                    forall|k: int| 0 <= k < digits@.len() ==> #[trigger] digits@[k] < 10,
                decreases v,
            {
                let d = v % 10;
                let ghost olddigits = digits@;
                let ghost vo = v as int;
                digits.push(d);
                v = v / 10;
                proof {
                    lemma_rev_chars_push(olddigits, d);
                    lemma_fundamental_div_mod(vo, 10);
                    if vo < 10 {
                        assert(vo / 10 == 0);
                        assert(dec_str(vo) == seq![digit_char(vo)]);
                        assert(seq![digit_char(d as int)] + rev_chars(olddigits) == rev_chars(
                            digits@,
                        ));
                        assert(dec_str(vo) + rev_chars(olddigits) =~= rev_chars(digits@));
                    } else {
                        assert(dec_str(vo) == dec_str(vo / 10).push(digit_char(vo % 10)));
                        assert(dec_str(vo) =~= dec_str(vo / 10) + seq![digit_char(vo % 10)]);
                        assert(dec_str(vo) + rev_chars(olddigits) =~= dec_str(vo / 10) + (seq![
                            digit_char(d as int)] + rev_chars(olddigits)));
                    }
                }
            }
        }
        let mut out = String::from_str("");
        let mut j = digits.len();
        proof {
            assert(digits@.subrange(j as int, j as int) =~= Seq::<u64>::empty());
            reveal_strlit("");
            assert(out@ =~= rev_chars(digits@.subrange(j as int, j as int)));
        }
        while j > 0
            invariant
                j <= digits@.len(),
                forall|k: int| 0 <= k < digits@.len() ==> #[trigger] digits@[k] < 10,
                out@ == rev_chars(digits@.subrange(j as int, digits@.len() as int)),
            decreases j,
        {
            let d = digits[j - 1];
            append_digit(&mut out, d);
            proof {
                let m = digits@.len() as int;
                let full = digits@.subrange(j as int - 1, m);
                assert(full.subrange(1, full.len() as int) =~= digits@.subrange(j as int, m));
                assert(full[0] == digits@[j as int - 1]);
            }
            j = j - 1;
        }
        proof {
            assert(digits@.subrange(0, digits@.len() as int) =~= digits@);
        }
        out
    }
}

/// The digit characters of low-first digits, highest digit first.
pub open spec fn rev_chars(d: Seq<u64>) -> Seq<char>
    decreases d.len(),
{
    if d.len() == 0 {
        Seq::empty()
    } else {
        rev_chars(d.subrange(1, d.len() as int)).push(digit_char(d[0] as int))
    }
}

/// Pushing a low-first digit prepends its character to the writing.
proof fn lemma_rev_chars_push(d: Seq<u64>, x: u64)
    ensures
        rev_chars(d.push(x)) == seq![digit_char(x as int)] + rev_chars(d),
    decreases d.len(),
{
    let t = d.push(x);
    if d.len() == 0 {
        assert(t.subrange(1, 1) =~= Seq::<u64>::empty());
        assert(t[0] == x);
        assert(rev_chars(Seq::<u64>::empty()) =~= Seq::<char>::empty());
        assert(rev_chars(t) == rev_chars(t.subrange(1, 1)).push(digit_char(t[0] as int)));
        assert(rev_chars(d) =~= Seq::<char>::empty());
        assert(rev_chars(t) =~= seq![digit_char(x as int)] + rev_chars(d));
    } else {
        assert(t.subrange(1, t.len() as int) =~= d.subrange(1, d.len() as int).push(x));
        lemma_rev_chars_push(d.subrange(1, d.len() as int), x);
        assert(rev_chars(t) == (seq![digit_char(x as int)] + rev_chars(
            d.subrange(1, d.len() as int),
        )).push(digit_char(d[0] as int)));
        assert((seq![digit_char(x as int)] + rev_chars(d.subrange(1, d.len() as int))).push(
            digit_char(d[0] as int),
        ) =~= seq![digit_char(x as int)] + rev_chars(d));
    }
}

/// Append one digit character to a string.
fn append_digit(s: &mut String, d: u64)
    requires
        d < 10,
    ensures
        final(s)@ == old(s)@.push(digit_char(d as int)),
{
    if d == 0 {
        s.append("0");
        proof {
            reveal_strlit("0");
            assert(old(s)@ + "0"@ =~= old(s)@.push('0'));
        }
    } else if d == 1 {
        s.append("1");
        proof {
            reveal_strlit("1");
            assert(old(s)@ + "1"@ =~= old(s)@.push('1'));
        }
    } else if d == 2 {
        s.append("2");
        proof {
            reveal_strlit("2");
            assert(old(s)@ + "2"@ =~= old(s)@.push('2'));
        }
    } else if d == 3 {
        s.append("3");
        proof {
            reveal_strlit("3");
            assert(old(s)@ + "3"@ =~= old(s)@.push('3'));
        }
    } else if d == 4 {
        s.append("4");
        proof {
            reveal_strlit("4");
            assert(old(s)@ + "4"@ =~= old(s)@.push('4'));
        }
    } else if d == 5 {
        s.append("5");
        proof {
            reveal_strlit("5");
            assert(old(s)@ + "5"@ =~= old(s)@.push('5'));
        }
    } else if d == 6 {
        s.append("6");
        proof {
            reveal_strlit("6");
            assert(old(s)@ + "6"@ =~= old(s)@.push('6'));
        }
    } else if d == 7 {
        s.append("7");
        proof {
            reveal_strlit("7");
            assert(old(s)@ + "7"@ =~= old(s)@.push('7'));
        }
    } else if d == 8 {
        s.append("8");
        proof {
            reveal_strlit("8");
            assert(old(s)@ + "8"@ =~= old(s)@.push('8'));
        }
    } else {
        s.append("9");
        proof {
            reveal_strlit("9");
            assert(old(s)@ + "9"@ =~= old(s)@.push('9'));
        }
    }
}

/// Reading back what was written returns the element that was written:
/// the byte codec loses nothing. The bytes are any sequence with the
/// written length and value; the element read from them is the one written.
pub proof fn lemma_read_after_write(pp: FpParams, a: Fp, b: Fp, bytes: Seq<u8>)
    requires
        pp.wf(),
        a.inv_holds(pp),
        b.inv_holds(pp),
        bytes.len() == 8,
        le_bytes_val(bytes) == a.abs(pp),
        b.abs(pp) == le_bytes_val(bytes),
    ensures
        b == a,
{
    lemma_abs_injective(pp, a, b);
}

} // verus!
