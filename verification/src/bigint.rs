//! Arbitrary-precision signed integers stored as two's-complement 32-bit
//! words, most-significant word first.
//!
//! A [`BigInt`] owns a non-empty carrier of `u32` words.  The carrier is read
//! as one wide two's-complement number: the high bit of the first word is the
//! sign, and arithmetic grows the carrier by at most one word instead of
//! wrapping around.  Truncation trims redundant leading sign words back off,
//! so every operation returns the canonical (shortest) form.

use crate::strutil::push_char;
use vstd::prelude::*;
use vstd::arithmetic::power2::*;

verus! {

/// The lowercase hexadecimal digit for a value below sixteen.
pub open spec fn hex_char(v: int) -> char {
    if v == 0 {
        '0'
    } else if v == 1 {
        '1'
    } else if v == 2 {
        '2'
    } else if v == 3 {
        '3'
    } else if v == 4 {
        '4'
    } else if v == 5 {
        '5'
    } else if v == 6 {
        '6'
    } else if v == 7 {
        '7'
    } else if v == 8 {
        '8'
    } else if v == 9 {
        '9'
    } else if v == 10 {
        'a'
    } else if v == 11 {
        'b'
    } else if v == 12 {
        'c'
    } else if v == 13 {
        'd'
    } else if v == 14 {
        'e'
    } else {
        'f'
    }
}

/// The eight hexadecimal digits of one word, most significant nibble first.
pub open spec fn hex_digits(w: u32) -> Seq<char> {
    seq![
        hex_char((w as int / 0x10000000) % 16),
        hex_char((w as int / 0x1000000) % 16),
        hex_char((w as int / 0x100000) % 16),
        hex_char((w as int / 0x10000) % 16),
        hex_char((w as int / 0x1000) % 16),
        hex_char((w as int / 0x100) % 16),
        hex_char((w as int / 0x10) % 16),
        hex_char(w as int % 16),
    ]
}

/// The hexadecimal rendering of a word sequence: eight digits per word,
/// most significant word first, with no separators.
pub open spec fn hex_string_of(s: Seq<u32>) -> Seq<char>
    decreases s.len(),
{
    if s.len() == 0 {
        Seq::empty()
    } else {
        hex_string_of(s.drop_last()) + hex_digits(s.last())
    }
}

/// Unsigned interpretation of a word sequence; the last word is the least
/// significant.
pub open spec fn uval(s: Seq<u32>) -> int
    decreases s.len(),
{
    if s.len() == 0 {
        0
    } else {
        uval(s.drop_last()) * 0x1_0000_0000 + s.last()
    }
}

/// The sign bit of the most significant word.
pub open spec fn sign_of(s: Seq<u32>) -> bool {
    s.len() > 0 && s[0] >= 0x8000_0000u32
}

/// The word that sign extension prepends: all ones for negative values,
/// all zeros otherwise.
pub open spec fn extension_word(sign: bool) -> u32 {
    if sign {
        0xFFFF_FFFFu32
    } else {
        0u32
    }
}

/// Two's-complement value of a word sequence over `32 * s.len()` bits.
pub open spec fn wval(s: Seq<u32>) -> int {
    uval(s) - if sign_of(s) {
        pow2((32 * s.len()) as nat) as int
    } else {
        0
    }
}

/// The leading word is redundant: dropping it keeps both the value and the
/// sign, because the next word already signals the same sign.
pub open spec fn removable(s: Seq<u32>) -> bool {
    s.len() > 1 && ((s[0] == 0u32 && s[1] < 0x8000_0000u32) || (s[0] == 0xFFFF_FFFFu32 && s[1]
        >= 0x8000_0000u32))
}

/// Canonical form: non-empty and of minimal length for the value it holds.
pub open spec fn is_canonical(s: Seq<u32>) -> bool {
    s.len() >= 1 && !removable(s)
}

/// `uval` of any sequence lies in `[0, 2^(32 len))`.
pub proof fn lemma_uval_bounds(s: Seq<u32>)
    ensures
        0 <= uval(s) < pow2((32 * s.len()) as nat),
    decreases s.len(),
{
    if s.len() == 0 {
        assert(pow2(0) == 1) by {
            lemma2_to64();
        }
    } else {
        lemma_uval_bounds(s.drop_last());
        lemma_pow2_adds((32 * (s.len() - 1)) as nat, 32);
        assert(pow2(32) == 0x1_0000_0000) by {
            lemma2_to64();
        }
    }
}

/// Prepending a word adds its weighted value in front of the rest.
pub proof fn lemma_uval_prepend(w: u32, s: Seq<u32>)
    ensures
        uval(seq![w] + s) == w * pow2((32 * s.len()) as nat) + uval(s),
    decreases s.len(),
{
    let t = seq![w] + s;
    if s.len() == 0 {
        assert(t.len() == 1);
        assert(t.drop_last() =~= Seq::<u32>::empty());
        assert(t.last() == w);
        assert(uval(t) == uval(t.drop_last()) * 0x1_0000_0000 + t.last());
        assert(uval(Seq::<u32>::empty()) == 0);
        assert(uval(t) == w);
        assert(pow2(0) == 1) by {
            lemma2_to64();
        }
        assert(uval(t) == w * pow2(0) + uval(s));
    } else {
        lemma_uval_prepend(w, s.drop_last());
        assert((seq![w] + s).drop_last() =~= seq![w] + s.drop_last());
        assert((seq![w] + s).last() == s.last());
        lemma_pow2_adds((32 * (s.len() - 1)) as nat, 32);
        assert(pow2(32) == 0x1_0000_0000) by {
            lemma2_to64();
        }
        let p = pow2((32 * (s.len() - 1)) as nat) as int;
        let u = uval(s.drop_last());
        assert(uval(seq![w] + s) == (w * p + u) * 0x1_0000_0000 + s.last());
        assert((w * p + u) * 0x1_0000_0000 == w * (p * 0x1_0000_0000) + u * 0x1_0000_0000)
            by (nonlinear_arith);
        assert(p * 0x1_0000_0000 == pow2((32 * s.len()) as nat));
        assert(uval(s) == u * 0x1_0000_0000 + s.last());
    }
}

/// The sign bit is set exactly when the unsigned value reaches the top half
/// of its range.
pub proof fn lemma_sign_uval(s: Seq<u32>)
    requires
        s.len() >= 1,
    ensures
        sign_of(s) <==> uval(s) >= pow2((32 * s.len() - 1) as nat),
{
    assert(s =~= seq![s[0]] + s.drop_first());
    lemma_uval_prepend(s[0], s.drop_first());
    lemma_uval_bounds(s.drop_first());
    let rest = (32 * (s.len() - 1)) as nat;
    lemma_pow2_adds(rest, 31);
    assert(pow2(31) == 0x8000_0000) by {
        lemma2_to64();
    }
    if s[0] >= 0x8000_0000u32 {
        assert(s[0] * pow2(rest) >= 0x8000_0000 * pow2(rest)) by (nonlinear_arith)
            requires
                s[0] >= 0x8000_0000u32,
                pow2(rest) > 0,
        {
        }
        lemma_pow2_pos(rest);
    } else {
        assert(s[0] * pow2(rest) <= (0x8000_0000 - 1) * pow2(rest)) by (nonlinear_arith)
            requires
                s[0] < 0x8000_0000u32,
                pow2(rest) > 0,
        {
        }
        lemma_pow2_pos(rest);
    }
}

/// The two's-complement value of a non-empty sequence lies in the signed
/// range of its width.
pub proof fn lemma_wval_bounds(s: Seq<u32>)
    requires
        s.len() >= 1,
    ensures
        -pow2((32 * s.len() - 1) as nat) <= wval(s) < pow2((32 * s.len() - 1) as nat),
{
    lemma_uval_bounds(s);
    lemma_sign_uval(s);
    lemma_pow2_adds((32 * s.len() - 1) as nat, 1);
    assert(pow2(1) == 2) by {
        lemma2_to64();
    }
}

/// Prepending the matching extension word keeps the two's-complement value.
pub proof fn lemma_wval_prepend_ext(s: Seq<u32>)
    requires
        s.len() >= 1,
    ensures
        wval(seq![extension_word(sign_of(s))] + s) == wval(s),
        sign_of(seq![extension_word(sign_of(s))] + s) == sign_of(s),
{
    let w = extension_word(sign_of(s));
    let t = seq![w] + s;
    lemma_uval_prepend(w, s);
    lemma_pow2_adds((32 * s.len()) as nat, 32);
    assert(pow2(32) == 0x1_0000_0000) by {
        lemma2_to64();
    }
    if sign_of(s) {
        assert(uval(t) == 0xFFFF_FFFF * pow2((32 * s.len()) as nat) + uval(s));
        assert(wval(t) == uval(s) - pow2((32 * s.len()) as nat)) by {
            assert(0xFFFF_FFFF * pow2((32 * s.len()) as nat) == 0x1_0000_0000 * pow2(
                (32 * s.len()) as nat,
            ) - pow2((32 * s.len()) as nat)) by (nonlinear_arith);
        }
    } else {
    }
}

/// Equal lengths and equal unsigned values force equal word sequences.
pub proof fn lemma_uval_injective(s1: Seq<u32>, s2: Seq<u32>)
    requires
        s1.len() == s2.len(),
        uval(s1) == uval(s2),
    ensures
        s1 == s2,
    decreases s1.len(),
{
    if s1.len() == 0 {
        assert(s1 =~= s2);
    } else {
        let u1 = uval(s1.drop_last());
        let u2 = uval(s2.drop_last());
        assert(u1 * 0x1_0000_0000 + s1.last() == u2 * 0x1_0000_0000 + s2.last());
        assert(u1 == u2 && s1.last() == s2.last());
        lemma_uval_injective(s1.drop_last(), s2.drop_last());
        assert(s1 =~= s1.drop_last().push(s1.last()));
        assert(s2 =~= s2.drop_last().push(s2.last()));
    }
}

/// The sign bit is set exactly when the represented value is negative.
pub proof fn lemma_sign_wval(s: Seq<u32>)
    requires
        s.len() >= 1,
    ensures
        sign_of(s) <==> wval(s) < 0,
{
    lemma_uval_bounds(s);
    lemma_sign_uval(s);
    lemma_pow2_adds((32 * s.len() - 1) as nat, 1);
    assert(pow2(1) == 2) by {
        lemma2_to64();
    }
}

/// A canonical sequence of more than one word holds a value that does not
/// fit in one word fewer.
pub proof fn lemma_canonical_needs_length(s: Seq<u32>)
    requires
        is_canonical(s),
        s.len() > 1,
    ensures
        wval(s) < -pow2((32 * (s.len() - 1) - 1) as nat) || wval(s) >= pow2(
            (32 * (s.len() - 1) - 1) as nat,
        ),
{
    let t = s.drop_first();
    let p = pow2((32 * (s.len() - 1)) as nat) as int;
    let h = pow2((32 * (s.len() - 1) - 1) as nat) as int;
    assert(s =~= seq![s[0]] + t);
    lemma_uval_prepend(s[0], t);
    lemma_uval_bounds(t);
    lemma_sign_uval(t);
    lemma_pow2_adds((32 * (s.len() - 1) - 1) as nat, 1);
    assert(pow2(1) == 2) by {
        lemma2_to64();
    }
    assert(p == 2 * h);
    assert(t[0] == s[1]);
    if s[0] < 0x8000_0000u32 {
        assert(wval(s) == s[0] * p + uval(t));
        if s[0] == 0u32 {
            assert(sign_of(t));
        } else {
            assert(s[0] * p >= p) by (nonlinear_arith)
                requires
                    s[0] >= 1,
                    p > 0,
            {
            }
        }
    } else {
        lemma_pow2_adds(32, (32 * (s.len() - 1)) as nat);
        assert(pow2(32) == 0x1_0000_0000) by {
            lemma2_to64();
        }
        assert(pow2((32 * s.len()) as nat) == 0x1_0000_0000 * p);
        assert(wval(s) == s[0] * p + uval(t) - 0x1_0000_0000 * p);
        if s[0] == 0xFFFF_FFFFu32 {
            assert(!sign_of(t));
            assert(uval(t) < h);
            assert(wval(s) == 0xFFFF_FFFF * p + uval(t) - 0x1_0000_0000 * p);
        } else {
            assert(s[0] * p <= 0xFFFF_FFFE * p) by (nonlinear_arith)
                requires
                    s[0] <= 0xFFFF_FFFEu32,
                    p > 0,
            {
            }
            assert(uval(t) < p);
        }
    }
}

/// Power of two monotonicity, in the non-strict form the uniqueness proof
/// needs.
pub proof fn lemma_pow2_le(e1: nat, e2: nat)
    requires
        e1 <= e2,
    ensures
        pow2(e1) <= pow2(e2),
{
    if e1 < e2 {
        lemma_pow2_strictly_increases(e1, e2);
    }
}

/// There is exactly one canonical word sequence for each value.
pub proof fn lemma_canonical_unique(s1: Seq<u32>, s2: Seq<u32>)
    requires
        is_canonical(s1),
        is_canonical(s2),
        wval(s1) == wval(s2),
    ensures
        s1 == s2,
{
    if s1.len() < s2.len() {
        lemma_canonical_unique_helper(s1, s2);
    } else if s2.len() < s1.len() {
        lemma_canonical_unique_helper(s2, s1);
    } else {
        lemma_sign_wval(s1);
        lemma_sign_wval(s2);
        assert(sign_of(s1) == sign_of(s2));
        assert(uval(s1) == uval(s2));
        lemma_uval_injective(s1, s2);
    }
}

/// A shorter and a longer canonical sequence cannot share a value.
proof fn lemma_canonical_unique_helper(s1: Seq<u32>, s2: Seq<u32>)
    requires
        is_canonical(s1),
        is_canonical(s2),
        s1.len() < s2.len(),
    ensures
        wval(s1) != wval(s2),
{
    lemma_wval_bounds(s1);
    lemma_canonical_needs_length(s2);
    lemma_pow2_le((32 * s1.len() - 1) as nat, (32 * (s2.len() - 1) - 1) as nat);
}

/// An arbitrary-precision signed integer: a non-empty carrier of 32-bit
/// words, most significant first, read as one two's-complement number.
#[derive(Debug, Clone)]
pub struct BigInt {
    /// The words of the integer, most significant first; never empty.
    pub carrier: Vec<u32>,
}

impl View for BigInt {
    type V = Seq<u32>;

    open spec fn view(&self) -> Seq<u32> {
        self.carrier@
    }
}

impl BigInt {
    /// Creates a one-word integer holding `n`; values with the top bit set
    /// read as negative, which is intentional for this representation.
    pub fn new(n: u32) -> (r: Self)
        ensures
            r@ =~= seq![n],
            is_canonical(r@),
            wval(r@) == n - if n >= 0x8000_0000u32 {
                0x1_0000_0000int
            } else {
                0
            },
    {
        proof {
            assert(uval(seq![n].drop_last()) == 0) by {
                assert(seq![n].drop_last() =~= Seq::<u32>::empty());
            }
            assert(uval(seq![n]) == n);
            assert(pow2(32) == 0x1_0000_0000) by {
                lemma2_to64();
            }
        }
        Self { carrier: vec![n] }
    }

    /// Creates an integer from an explicit non-empty word sequence and
    /// canonicalizes it.
    pub fn new_large(carrier: Vec<u32>) -> (r: Self)
        requires
            carrier@.len() >= 1,
        ensures
            is_canonical(r@),
            wval(r@) == wval(carrier@),
    {
        let big = Self { carrier };
        big.truncate()
    }

    /// Removes redundant leading sign words until the representation is the
    /// shortest one holding the same value.
    pub fn truncate(&self) -> (r: Self)
        requires
            self@.len() >= 1,
        ensures
            is_canonical(r@),
            wval(r@) == wval(self@),
    {
        let mut carrier = self.carrier.clone();
        proof {
            assert(carrier@ =~= self.carrier@);
        }
        let sign_bit = carrier[0] >= 0x8000_0000;
        let extend_word: u32 = if sign_bit {
            u32::MAX
        } else {
            0
        };
        let mut done = false;
        while !done && carrier.len() > 1 && carrier[0] == extend_word
            invariant
                carrier@.len() >= 1,
                wval(carrier@) == wval(self@),
                (carrier@[0] >= 0x8000_0000u32) == sign_bit,
                extend_word == extension_word(sign_bit),
                done ==> !removable(carrier@),
            decreases carrier@.len() + if done {
                0int
            } else {
                1int
            },
        {
            let second = carrier[1];
            let expected_word: u32 = if second >= 0x8000_0000 {
                u32::MAX
            } else {
                0
            };
            if expected_word != extend_word {
                done = true;
            } else {
                let ghost c = carrier@;
                proof {
                    let t = c.drop_first();
                    assert(removable(c));
                    assert(t[0] == c[1]);
                    assert(c =~= seq![extension_word(sign_of(t))] + t);
                    lemma_wval_prepend_ext(t);
                }
                let _ = carrier.remove(0);
                proof {
                    assert(carrier@ =~= c.drop_first());
                }
            }
        }
        BigInt { carrier }
    }

    /// Widens the representation to at least `len` words by prepending
    /// extension words; never shortens it, and never changes the value.
    pub fn sign_extension(&self, len: usize) -> (r: Self)
        requires
            self@.len() >= 1,
        ensures
            r@.len() == if len >= self@.len() {
                len as int
            } else {
                self@.len() as int
            },
            wval(r@) == wval(self@),
            sign_of(r@) == sign_of(self@),
    {
        let mut new_carrier = self.carrier.clone();
        proof {
            assert(new_carrier@ =~= self.carrier@);
        }
        let sign_bit = new_carrier[0] >= 0x8000_0000;
        let extend_word: u32 = if sign_bit {
            u32::MAX
        } else {
            0
        };
        while new_carrier.len() < len
            invariant
                new_carrier@.len() >= 1,
                new_carrier@.len() >= self@.len(),
                len >= self@.len() ==> new_carrier@.len() <= len,
                len < self@.len() ==> new_carrier@.len() == self@.len(),
                wval(new_carrier@) == wval(self@),
                sign_of(new_carrier@) == sign_of(self@),
                extend_word == extension_word(sign_of(new_carrier@)),
            decreases len - new_carrier@.len(),
        {
            let ghost c = new_carrier@;
            new_carrier.insert(0, extend_word);
            proof {
                assert(new_carrier@ =~= seq![extension_word(sign_of(c))] + c);
                lemma_wval_prepend_ext(c);
            }
        }
        BigInt { carrier: new_carrier }
    }

    /// Bitwise complement of every word plus one, carried from the least
    /// significant word upward.  The width never grows, so the minimum value
    /// of a given width negates to itself.
    pub fn two_complement(&self) -> (r: Self)
        requires
            self@.len() >= 1,
        ensures
            r@.len() == self@.len(),
            uval(self@) == 0 ==> uval(r@) == 0,
            uval(self@) != 0 ==> uval(r@) == pow2((32 * self@.len()) as nat) - uval(self@),
            wval(self@) != -pow2((32 * self@.len() - 1) as nat) ==> wval(r@) == -wval(self@),
            wval(self@) == -pow2((32 * self@.len() - 1) as nat) ==> wval(r@) == wval(self@),
    {
        let n = self.carrier.len();
        let mut ret: Vec<u32> = Vec::new();
        let mut carry: u64 = 1;
        let mut k: usize = 0;
        proof {
            assert(self@.subrange(n as int, n as int) =~= Seq::<u32>::empty());
            assert(pow2(0) == 1) by {
                lemma2_to64();
            }
        }
        while k < n
            invariant
                n == self@.len(),
                k <= n,
                ret@.len() == k,
                carry <= 1,
                uval(ret@) + carry * pow2((32 * k) as nat) == pow2((32 * k) as nat) - uval(
                    self@.subrange(n - k, n as int),
                ),
            decreases n - k,
        {
            let x = self.carrier[n - 1 - k];
            let inver = !x as u64;
            let sum = inver + carry;
            let word = sum as u32;
            let new_carry = sum >> 32;
            proof {
                assert((!x) as u64 == 0xFFFF_FFFFu64 - x as u64) by (bit_vector);
                assert(sum as u32 as u64 == sum % 0x1_0000_0000u64) by (bit_vector);
                assert(sum >> 32u64 == sum / 0x1_0000_0000u64) by (bit_vector);
            }
            let ghost old_ret = ret@;
            let ghost old_carry = carry as int;
            ret.insert(0, word);
            carry = new_carry;
            k = k + 1;
            proof {
                let p = pow2((32 * (k - 1)) as nat) as int;
                assert(ret@ =~= seq![word] + old_ret);
                lemma_uval_prepend(word, old_ret);
                lemma_pow2_adds((32 * (k - 1)) as nat, 32);
                assert(pow2(32) == 0x1_0000_0000) by {
                    lemma2_to64();
                }
                assert(pow2((32 * k) as nat) == 0x1_0000_0000 * p);
                let tail = self@.subrange(n - k + 1, n as int);
                let whole = self@.subrange(n - k, n as int);
                assert(whole =~= seq![x] + tail);
                lemma_uval_prepend(x, tail);
                assert(word + new_carry * 0x1_0000_0000 == 0x1_0000_0000 - 1 - x + old_carry);
                assert(word * p + (p - uval(tail) - old_carry * p) + new_carry * (0x1_0000_0000
                    * p) == 0x1_0000_0000 * p - x * p - uval(tail)) by (nonlinear_arith)
                    requires
                        word + new_carry * 0x1_0000_0000 == 0x1_0000_0000 - 1 - x + old_carry,
                {
                }
                assert(uval(old_ret) == p - uval(tail) - old_carry * p);
            }
        }
        proof {
            assert(self@.subrange(0, n as int) =~= self@);
            let big = pow2((32 * n) as nat) as int;
            lemma_uval_bounds(ret@);
            lemma_uval_bounds(self@);
            if uval(self@) == 0 {
                assert(uval(ret@) == (1 - carry) * big);
                assert(carry == 1);
            } else {
                assert(carry == 0);
            }
            lemma_two_complement_wval(self@, ret@);
        }
        BigInt { carrier: ret }
    }
}

impl BigInt {
    /// Adds two integers.  Both operands are sign-extended to a common
    /// width, added word by word with carry, grown by one extension word if
    /// the raw result's sign contradicts a shared operand sign, and finally
    /// canonicalized.
    pub fn add(self, rhs: Self) -> (r: Self)
        requires
            self@.len() >= 1,
            rhs@.len() >= 1,
        ensures
            is_canonical(r@),
            wval(r@) == wval(self@) + wval(rhs@),
    {
        let max_len = if self.carrier.len() >= rhs.carrier.len() {
            self.carrier.len()
        } else {
            rhs.carrier.len()
        };
        let lhs_ext = self.sign_extension(max_len);
        let rhs_ext = rhs.sign_extension(max_len);
        let lhs_sign = self.carrier[0] >= 0x8000_0000;
        let rhs_sign = rhs_ext.carrier[0] >= 0x8000_0000;
        let n = max_len;
        proof {
            assert(lhs_ext@.len() == n && rhs_ext@.len() == n);
        }

        let mut ret: Vec<u32> = Vec::new();
        let mut carry: u64 = 0;
        let mut k: usize = 0;
        proof {
            assert(lhs_ext@.subrange(n as int, n as int) =~= Seq::<u32>::empty());
            assert(rhs_ext@.subrange(n as int, n as int) =~= Seq::<u32>::empty());
            assert(pow2(0) == 1) by {
                lemma2_to64();
            }
        }
        while k < n
            invariant
                n == lhs_ext@.len(),
                n == rhs_ext@.len(),
                k <= n,
                ret@.len() == k,
                carry <= 1,
                uval(ret@) + carry * pow2((32 * k) as nat) == uval(
                    lhs_ext@.subrange(n - k, n as int),
                ) + uval(rhs_ext@.subrange(n - k, n as int)),
            decreases n - k,
        {
            let a = lhs_ext.carrier[n - 1 - k] as u64;
            let b = rhs_ext.carrier[n - 1 - k] as u64;
            let sum = a + b + carry;
            let word = sum as u32;
            let new_carry = sum >> 32;
            proof {
                assert(sum as u32 as u64 == sum % 0x1_0000_0000u64) by (bit_vector);
                assert(sum >> 32u64 == sum / 0x1_0000_0000u64) by (bit_vector);
            }
            let ghost old_ret = ret@;
            let ghost old_carry = carry as int;
            ret.insert(0, word);
            carry = new_carry;
            k = k + 1;
            proof {
                let p = pow2((32 * (k - 1)) as nat) as int;
                assert(ret@ =~= seq![word] + old_ret);
                lemma_uval_prepend(word, old_ret);
                lemma_pow2_adds((32 * (k - 1)) as nat, 32);
                assert(pow2(32) == 0x1_0000_0000) by {
                    lemma2_to64();
                }
                assert(pow2((32 * k) as nat) == 0x1_0000_0000 * p);
                let ltail = lhs_ext@.subrange(n - k + 1, n as int);
                let rtail = rhs_ext@.subrange(n - k + 1, n as int);
                assert(lhs_ext@.subrange(n - k, n as int) =~= seq![lhs_ext@[n - k]] + ltail);
                assert(rhs_ext@.subrange(n - k, n as int) =~= seq![rhs_ext@[n - k]] + rtail);
                lemma_uval_prepend(lhs_ext@[n - k], ltail);
                lemma_uval_prepend(rhs_ext@[n - k], rtail);
                assert(word + new_carry * 0x1_0000_0000 == a + b + old_carry);
                assert(word * p + (uval(ltail) + uval(rtail) - old_carry * p) + new_carry * (
                0x1_0000_0000 * p) == a * p + uval(ltail) + (b * p + uval(rtail))) by (nonlinear_arith)
                    requires
                        word + new_carry * 0x1_0000_0000 == a + b + old_carry,
                {
                }
                assert(uval(old_ret) == uval(ltail) + uval(rtail) - old_carry * p);
            }
        }

        proof {
            assert(lhs_ext@.subrange(0, n as int) =~= lhs_ext@);
            assert(rhs_ext@.subrange(0, n as int) =~= rhs_ext@);
        }
        let first_sign = ret[0] >= 0x8000_0000;
        let ghost raw = ret@;
        proof {
            lemma_add_sign_cases(self@, rhs@, lhs_ext@, rhs_ext@, raw, carry as int);
        }
        if rhs_sign == lhs_sign && first_sign != rhs_sign {
            let ghost c = ret@;
            if rhs_sign {
                ret.insert(0, u32::MAX);
            } else {
                ret.insert(0, 0);
            }
            proof {
                assert(ret@ =~= seq![extension_word(sign_of(lhs_ext@))] + c);
                lemma_add_growth_word(self@, rhs@, lhs_ext@, rhs_ext@, c, ret@, carry as int);
            }
        }
        let out = BigInt { carrier: ret };
        out.truncate()
    }

    /// Subtracts by adding the two's complement of `rhs`, taken at the width
    /// `rhs` already has.  Because that negation cannot grow the carrier,
    /// the minimum value of its width negates to itself, and for exactly
    /// that operand the call adds `wval(rhs)` instead of subtracting it.
    pub fn sub(self, rhs: Self) -> (r: Self)
        requires
            self@.len() >= 1,
            rhs@.len() >= 1,
        ensures
            is_canonical(r@),
            wval(rhs@) != -pow2((32 * rhs@.len() - 1) as nat) ==> wval(r@) == wval(self@) - wval(
                rhs@,
            ),
            wval(rhs@) == -pow2((32 * rhs@.len() - 1) as nat) ==> wval(r@) == wval(self@) + wval(
                rhs@,
            ),
    {
        let neg = rhs.two_complement();
        self.add(neg)
    }

    /// Renders the carrier as lowercase hexadecimal, eight digits per word,
    /// most significant word first; diagnostic, not a canonical form.
    pub fn to_hex_string(&self) -> (r: String)
        ensures
            r@ == hex_string_of(self@),
    {
        let mut out = String::new();
        let mut i: usize = 0;
        proof {
            assert(self@.subrange(0, 0) =~= Seq::<u32>::empty());
        }
        while i < self.carrier.len()
            invariant
                i <= self@.len(),
                out@ == hex_string_of(self@.subrange(0, i as int)),
            decreases self@.len() - i,
        {
            let w = self.carrier[i];
            let ghost prefix = out@;
            proof {
                lemma_shifted_nibbles(w);
            }
            push_char(&mut out, hex_char_of((w >> 28) & 0xF));
            push_char(&mut out, hex_char_of((w >> 24) & 0xF));
            push_char(&mut out, hex_char_of((w >> 20) & 0xF));
            push_char(&mut out, hex_char_of((w >> 16) & 0xF));
            push_char(&mut out, hex_char_of((w >> 12) & 0xF));
            push_char(&mut out, hex_char_of((w >> 8) & 0xF));
            push_char(&mut out, hex_char_of((w >> 4) & 0xF));
            push_char(&mut out, hex_char_of(w & 0xF));
            i = i + 1;
            proof {
                assert(out@ =~= prefix + hex_digits(w));
                assert(self@.subrange(0, i as int).drop_last() =~= self@.subrange(0, i - 1));
                assert(self@.subrange(0, i as int).last() == self@[i - 1]);
            }
        }
        proof {
            assert(self@.subrange(0, self@.len() as int) =~= self@);
        }
        out
    }
}

/// Masked right shifts extract the same nibbles that division and remainder
/// describe.
proof fn lemma_shifted_nibbles(w: u32)
    ensures
        ((w >> 28) & 0xF) < 16 && ((w >> 28) & 0xF) == (w as int / 0x10000000) % 16,
        ((w >> 24) & 0xF) < 16 && ((w >> 24) & 0xF) == (w as int / 0x1000000) % 16,
        ((w >> 20) & 0xF) < 16 && ((w >> 20) & 0xF) == (w as int / 0x100000) % 16,
        ((w >> 16) & 0xF) < 16 && ((w >> 16) & 0xF) == (w as int / 0x10000) % 16,
        ((w >> 12) & 0xF) < 16 && ((w >> 12) & 0xF) == (w as int / 0x1000) % 16,
        ((w >> 8) & 0xF) < 16 && ((w >> 8) & 0xF) == (w as int / 0x100) % 16,
        ((w >> 4) & 0xF) < 16 && ((w >> 4) & 0xF) == (w as int / 0x10) % 16,
        (w & 0xF) < 16 && (w & 0xF) == w as int % 16,
{
    assert(((w >> 28) & 0xF) < 16 && ((w >> 28) & 0xF) == (w / 0x10000000) % 16 && ((w >> 24)
        & 0xF) < 16 && ((w >> 24) & 0xF) == (w / 0x1000000) % 16 && ((w >> 20) & 0xF) < 16 && ((w
        >> 20) & 0xF) == (w / 0x100000) % 16 && ((w >> 16) & 0xF) < 16 && ((w >> 16) & 0xF) == (w
        / 0x10000) % 16 && ((w >> 12) & 0xF) < 16 && ((w >> 12) & 0xF) == (w / 0x1000) % 16 && ((w
        >> 8) & 0xF) < 16 && ((w >> 8) & 0xF) == (w / 0x100) % 16 && ((w >> 4) & 0xF) < 16 && ((w
        >> 4) & 0xF) == (w / 0x10) % 16 && (w & 0xF) < 16 && (w & 0xF) == w % 16) by (bit_vector);
}

/// The lowercase hexadecimal digit for a value below sixteen.
fn hex_char_of(v: u32) -> (c: char)
    requires
        v < 16,
    ensures
        c == hex_char(v as int),
{
    if v == 0 {
        '0'
    } else if v == 1 {
        '1'
    } else if v == 2 {
        '2'
    } else if v == 3 {
        '3'
    } else if v == 4 {
        '4'
    } else if v == 5 {
        '5'
    } else if v == 6 {
        '6'
    } else if v == 7 {
        '7'
    } else if v == 8 {
        '8'
    } else if v == 9 {
        '9'
    } else if v == 10 {
        'a'
    } else if v == 11 {
        'b'
    } else if v == 12 {
        'c'
    } else if v == 13 {
        'd'
    } else if v == 14 {
        'e'
    } else {
        'f'
    }
}

/// The word-wise sum of the extended operands already represents the exact
/// integer sum whenever the operands disagree in sign, or agree and the raw
/// sign matches them.
proof fn lemma_add_sign_cases(
    sl: Seq<u32>,
    sr: Seq<u32>,
    l: Seq<u32>,
    r: Seq<u32>,
    raw: Seq<u32>,
    carry: int,
)
    requires
        sl.len() >= 1,
        sr.len() >= 1,
        l.len() >= 1,
        l.len() == r.len(),
        raw.len() == l.len(),
        wval(l) == wval(sl),
        wval(r) == wval(sr),
        sign_of(l) == sign_of(sl),
        sign_of(r) == sign_of(sr),
        0 <= carry <= 1,
        uval(raw) + carry * pow2((32 * raw.len()) as nat) == uval(l) + uval(r),
    ensures
        sign_of(l) != sign_of(r) ==> wval(raw) == wval(sl) + wval(sr),
        sign_of(l) == sign_of(r) && sign_of(raw) == sign_of(l) ==> wval(raw) == wval(sl) + wval(
            sr,
        ),
        sign_of(l) == sign_of(r) && sign_of(raw) != sign_of(l) && !sign_of(l) ==> uval(raw) == wval(
            sl,
        ) + wval(sr),
        sign_of(l) == sign_of(r) && sign_of(raw) != sign_of(l) && sign_of(l) ==> uval(raw) - pow2(
            (32 * raw.len()) as nat,
        ) == wval(sl) + wval(sr),
{
    let n = raw.len();
    let big = pow2((32 * n) as nat) as int;
    let half = pow2((32 * n - 1) as nat) as int;
    lemma_pow2_adds((32 * n - 1) as nat, 1);
    assert(pow2(1) == 2) by {
        lemma2_to64();
    }
    assert(big == 2 * half);
    lemma_uval_bounds(l);
    lemma_uval_bounds(r);
    lemma_uval_bounds(raw);
    lemma_sign_uval(l);
    lemma_sign_uval(r);
    lemma_sign_uval(raw);
}

/// When both operands share a sign and the raw result's sign flips, one
/// prepended extension word restores the exact integer sum.
proof fn lemma_add_growth_word(
    sl: Seq<u32>,
    sr: Seq<u32>,
    l: Seq<u32>,
    r: Seq<u32>,
    raw: Seq<u32>,
    fixed: Seq<u32>,
    carry: int,
)
    requires
        sl.len() >= 1,
        sr.len() >= 1,
        l.len() >= 1,
        l.len() == r.len(),
        raw.len() == l.len(),
        wval(l) == wval(sl),
        wval(r) == wval(sr),
        sign_of(l) == sign_of(sl),
        sign_of(r) == sign_of(sr),
        0 <= carry <= 1,
        uval(raw) + carry * pow2((32 * raw.len()) as nat) == uval(l) + uval(r),
        sign_of(l) == sign_of(r),
        sign_of(raw) != sign_of(l),
        fixed =~= seq![extension_word(sign_of(l))] + raw,
    ensures
        wval(fixed) == wval(sl) + wval(sr),
{
    let n = raw.len();
    let big = pow2((32 * n) as nat) as int;
    lemma_add_sign_cases(sl, sr, l, r, raw, carry);
    lemma_uval_prepend(extension_word(sign_of(l)), raw);
    lemma_pow2_adds((32 * n) as nat, 32);
    assert(pow2(32) == 0x1_0000_0000) by {
        lemma2_to64();
    }
    lemma_uval_bounds(raw);
    if sign_of(l) {
        assert(fixed[0] == 0xFFFF_FFFFu32);
        assert(sign_of(fixed));
        assert(uval(fixed) == 0xFFFF_FFFF * big + uval(raw));
        assert(wval(fixed) == uval(raw) - big);
    } else {
        assert(fixed[0] == 0u32);
        assert(!sign_of(fixed));
        assert(uval(fixed) == uval(raw));
    }
}

/// Relates the two's-complement values of a sequence and its negation,
/// given the unsigned-value relation the negation loop establishes.
proof fn lemma_two_complement_wval(s: Seq<u32>, r: Seq<u32>)
    requires
        s.len() >= 1,
        r.len() == s.len(),
        uval(s) == 0 ==> uval(r) == 0,
        uval(s) != 0 ==> uval(r) == pow2((32 * s.len()) as nat) - uval(s),
    ensures
        wval(s) != -pow2((32 * s.len() - 1) as nat) ==> wval(r) == -wval(s),
        wval(s) == -pow2((32 * s.len() - 1) as nat) ==> wval(r) == wval(s),
{
    let big = pow2((32 * s.len()) as nat) as int;
    let half = pow2((32 * s.len() - 1) as nat) as int;
    lemma_pow2_adds((32 * s.len() - 1) as nat, 1);
    assert(pow2(1) == 2) by {
        lemma2_to64();
    }
    assert(big == 2 * half);
    lemma_uval_bounds(s);
    lemma_uval_bounds(r);
    lemma_sign_uval(s);
    lemma_sign_uval(r);
}

} // verus!
