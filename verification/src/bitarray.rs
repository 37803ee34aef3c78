//! A fixed-length array of bits kept in 64-bit words.

use vstd::prelude::*;
use crate::bits::{
    word_bit, word_bits, words_view, count_true, lemma_bit_fill, lemma_bit_set, lemma_bit_mask,
    lemma_low_six_bits, lemma_bit_and, lemma_bit_or, lemma_bit_not, lemma_bit_and_not,
    lemma_bit_not_and, lemma_nonzero_has_bit, lemma_zero_has_no_bit, lemma_count_take_step,
    lemma_count_prefix_le, lemma_words_view_take_step, lemma_word_bits_eq, lemma_low_mask,
    lemma_count_concat, lemma_count_zero_iff, lemma_count_split, lemma_count_disjoint_union,
};

verus! {

/// The smaller of two integers.
pub open spec fn spec_min(a: int, b: int) -> int {
    if a < b {
        a
    } else {
        b
    }
}

/// The quotient `a / b` rounded up.
pub open spec fn spec_ceil_div(a: int, b: int) -> int {
    (a + b - 1) / b
}

/// Return CEIL(a/b) without using floats.
pub fn ceil_div(a: usize, b: usize) -> (r: usize)
    requires
        b > 0,
        a <= usize::MAX - (b - 1),
    ensures
        r == spec_ceil_div(a as int, b as int),
{
    (a + (b - 1)) / b
}

/// A bit array kept as a vector of `u64` words. It holds `sz` bits; the bits
/// of the last word past `sz` are kept clear.
#[derive(Clone, Hash, PartialEq, Eq)]
pub struct BitArray {
    pub(crate) bits: Vec<u64>,
    pub(crate) sz: usize,
}

impl View for BitArray {
    type V = Seq<bool>;

    /// The `sz` bits of the array.
    closed spec fn view(&self) -> Seq<bool> {
        self.stored().take(self.sz as int)
    }
}

impl BitArray {
    /// Every bit the words hold, those past `sz` included.
    pub closed spec fn stored(&self) -> Seq<bool> {
        words_view(self.bits@)
    }

    /// The words hold exactly as many words as `sz` bits need, and the bits
    /// past `sz` are clear.
    pub closed spec fn wf(&self) -> bool {
        &&& self.bits@.len() == spec_ceil_div(self.sz as int, 64)
        &&& forall|i: int| self.sz <= i < self.stored().len() ==> !#[trigger] self.stored()[i]
    }

    /// The view is the first `sz` stored bits, and the others are clear.
    proof fn lemma_stored(&self)
        requires
            self.bits@.len() == spec_ceil_div(self.sz as int, 64),
        ensures
            self.stored().len() == self.bits@.len() * 64,
            self.sz <= self.stored().len() < self.sz + 64,
            self@.len() == self.sz,
            forall|i: int| 0 <= i < self.sz ==> #[trigger] self@[i] == self.stored()[i],
    {
        let n = self.bits@.len();
        assert(self.sz <= n * 64 < self.sz + 64) by (nonlinear_arith)
            requires
                n == (self.sz + 63) / 64,
        ;
    }

    /// The number of bits, as `len` reports it.
    pub closed spec fn size(&self) -> nat {
        self.sz as nat
    }

    /// The view has one entry per bit.
    pub proof fn lemma_view_len(&self)
        requires
            self.wf(),
        ensures
            self@.len() == self.size(),
    {
        self.lemma_stored();
    }

    /// Create a new BitArray of len bits, all of them set to 'val'.
    pub fn new(len: usize, val: bool) -> (r: BitArray)
        requires
            len <= usize::MAX - 63,
        ensures
            r.wf(),
            r.size() == len,
            r@ == Seq::new(len as nat, |i: int| val),
    {
        let fill = if val { !0u64 } else { 0u64 };
        let n = ceil_div(len, 64);
        let mut bits: Vec<u64> = Vec::new();
        bits.resize(n, fill);
        let k: usize = len % 64;
        proof {
            assert(forall|i: int| 0 <= i < n ==> bits@[i] == fill);
            if k != 0 {
                assert(n >= 1 && len == 64 * (n - 1) + k) by (nonlinear_arith)
                    requires
                        n == (len + 63) / 64,
                        k == len % 64,
                        k != 0,
                ;
            } else {
                assert(len == 64 * n) by (nonlinear_arith)
                    requires
                        n == (len + 63) / 64,
                        k == len % 64,
                        k == 0,
                ;
            }
        }
        let ghost full = bits@;
        if val && k != 0 {
            proof {
                lemma_low_mask(k as u64, 0);
            }
            bits.set(n - 1, (1u64 << (k as u64)) - 1);
        }
        let r = BitArray { sz: len, bits };
        proof {
            r.lemma_stored();
            assert forall|i: int| 0 <= i < r.stored().len() implies #[trigger] r.stored()[i] == (val
                && i < len) by {
                assert(0 <= i / 64 < n) by (nonlinear_arith)
                    requires
                        0 <= i < n * 64,
                ;
                lemma_bit_fill((i % 64) as u64);
                if val && k != 0 && i / 64 == n - 1 {
                    assert(i % 64 == i - 64 * (n - 1)) by (nonlinear_arith)
                        requires
                            64 * (n - 1) <= i < 64 * n,
                    ;
                    lemma_low_mask(k as u64, (i % 64) as u64);
                } else if val && k != 0 {
                    assert(i < 64 * (n - 1)) by (nonlinear_arith)
                        requires
                            0 <= i / 64 < n - 1,
                            i >= 0,
                    ;
                }
            }
            assert(r@ =~= Seq::new(len as nat, |i: int| val));
        }
        r
    }

    /// Return the size of 'self' in bits.
    pub fn len(&self) -> (r: usize)
        ensures
            r == self.size(),
    {
        self.sz
    }

    /// Position `i` lies in word `i / 64` at bit `i % 64`, and no other
    /// position does.
    proof fn lemma_position(i: int, bit: int)
        requires
            0 <= i,
            0 <= bit,
        ensures
            (i / 64 == bit / 64 && i % 64 == bit % 64) <==> i == bit,
    {
        assert(i == 64 * (i / 64) + i % 64) by (nonlinear_arith);
        assert(bit == 64 * (bit / 64) + bit % 64) by (nonlinear_arith);
    }

    /// A stored position lies in one of the words.
    proof fn lemma_word_index(&self, i: int)
        requires
            0 <= i < self.stored().len(),
        ensures
            0 <= i / 64 < self.bits@.len(),
            0 <= i % 64 < 64,
            self.stored()[i] == word_bit(self.bits@[i / 64], i % 64),
    {
        assert(0 <= i / 64 < self.bits@.len()) by (nonlinear_arith)
            requires
                0 <= i < self.bits@.len() * 64,
        ;
    }

    /// Two well-formed arrays of one size with the same bits store the same
    /// bits, padding included.
    proof fn lemma_stored_eq(&self, other: &BitArray)
        requires
            self.wf(),
            other.wf(),
            self.sz == other.sz,
            self@ == other@,
        ensures
            self.stored() == other.stored(),
    {
        self.lemma_stored();
        other.lemma_stored();
        assert forall|i: int| 0 <= i < self.stored().len() implies self.stored()[i]
            == other.stored()[i] by {
            if i < self.sz {
                assert(self@[i] == other@[i]);
                assert(self.stored()[i] == self@[i]);
                assert(other.stored()[i] == other@[i]);
            } else {
                assert(!self.stored()[i]);
                assert(!other.stored()[i]);
            }
        }
        assert(self.stored() =~= other.stored());
    }

    /// The set bits of a well-formed array all lie among its `sz` bits.
    proof fn lemma_count_stored(&self)
        requires
            self.wf(),
        ensures
            count_true(self.stored()) == count_true(self@),
    {
        self.lemma_stored();
        let s = self.stored();
        let pad = s.skip(self.sz as int);
        assert(s =~= self@ + pad);
        lemma_count_concat(self@, pad);
        lemma_count_zero_iff(pad);
    }

    /// Sets the bit at position 'bit' to 'val'.
    pub fn set_bit(&mut self, bit: usize, val: bool)
        requires
            old(self).wf(),
            bit < old(self).size(),
        ensures
            final(self).wf(),
            final(self).size() == old(self).size(),
            final(self)@ == old(self)@.update(bit as int, val),
    {
        let k: usize = bit / 64;
        proof {
            assert(k < self.bits@.len()) by (nonlinear_arith)
                requires
                    k == bit / 64,
                    bit < self.sz,
                    self.bits@.len() == (self.sz + 63) / 64,
            ;
            lemma_low_six_bits(bit as u64);
        }
        let sh: u64 = (bit as u64) & 0x3f;
        let mask: u64 = 1u64 << sh;
        let w = self.bits[k];
        if val {
            self.bits.set(k, w | mask);
        } else {
            self.bits.set(k, w & !mask);
        }
        proof {
            let ghost before = old(self).stored();
            assert forall|i: int| 0 <= i < self.stored().len() implies #[trigger] self.stored()[i]
                == if i == bit {
                val
            } else {
                before[i]
            } by {
                self.lemma_word_index(i);
                old(self).lemma_word_index(i);
                Self::lemma_position(i, bit as int);
                lemma_bit_set(w, sh, (i % 64) as u64);
            }
            self.lemma_stored();
            old(self).lemma_stored();
            assert(self@ =~= old(self)@.update(bit as int, val));
        }
    }

    /// Returns the bit at position 'bit'.
    pub fn is_set(&self, bit: usize) -> (r: bool)
        requires
            self.wf(),
            bit < self.size(),
        ensures
            r == self@[bit as int],
    {
        let k: usize = bit / 64;
        proof {
            assert(k < self.bits@.len()) by (nonlinear_arith)
                requires
                    k == bit / 64,
                    bit < self.sz,
                    self.bits@.len() == (self.sz + 63) / 64,
            ;
            lemma_low_six_bits(bit as u64);
        }
        let sh: u64 = (bit as u64) & 0x3f;
        proof {
            lemma_bit_mask(self.bits@[k as int], sh);
            self.lemma_stored();
            self.lemma_word_index(bit as int);
        }
        self.bits[k] & 1u64 << sh != 0
    }

    /// Set all bits between 'lo' and 'hi' inclusive to 'val'.
    pub fn set_range(&mut self, lo: usize, hi: usize, val: bool)
        requires
            old(self).wf(),
            lo <= hi ==> hi < old(self).size(),
        ensures
            final(self).wf(),
            final(self).size() == old(self).size(),
            final(self)@.len() == old(self)@.len(),
            forall|i: int|
                0 <= i < old(self)@.len() ==> #[trigger] final(self)@[i] == if lo <= i <= hi {
                    val
                } else {
                    old(self)@[i]
                },
    {
        if lo > hi {
            return;
        }
        let mut bit: usize = lo;
        while bit <= hi
            invariant
                lo <= bit <= hi + 1,
                hi < self.size(),
                self.wf(),
                self.size() == old(self).size(),
                self@.len() == old(self)@.len(),
                forall|i: int|
                    0 <= i < old(self)@.len() ==> #[trigger] self@[i] == if lo <= i < bit {
                        val
                    } else {
                        old(self)@[i]
                    },
            decreases hi + 1 - bit,
        {
            self.set_bit(bit, val);
            bit = bit + 1;
        }
    }

    /// Whether some stored position below `64 * n`, for `n` the smaller word
    /// count, holds a set bit of `b` together with a set bit of this array
    /// (`disjoint`) or a clear one (otherwise): the shared test of `contains`
    /// and `negation_contains`.
    fn any_word_pair(&self, b: &BitArray, disjoint: bool) -> (r: bool)
        ensures
            r == exists|i: int|
                0 <= i < 64 * spec_min(self.bits@.len() as int, b.bits@.len() as int)
                    && #[trigger] b.stored()[i] && (if disjoint {
                    self.stored()[i]
                } else {
                    !self.stored()[i]
                }),
    {
        let n = if self.bits.len() < b.bits.len() {
            self.bits.len()
        } else {
            b.bits.len()
        };
        let mut k: usize = 0;
        while k < n
            invariant
                k <= n,
                n == spec_min(self.bits@.len() as int, b.bits@.len() as int),
                forall|i: int|
                    0 <= i < 64 * k ==> !(#[trigger] b.stored()[i] && (if disjoint {
                        self.stored()[i]
                    } else {
                        !self.stored()[i]
                    })),
            decreases n - k,
        {
            let x = self.bits[k];
            let y = b.bits[k];
            let m = if disjoint {
                x & y
            } else {
                !x & y
            };
            if m != 0 {
                proof {
                    let j = lemma_nonzero_has_bit(m);
                    let i = 64 * k + j;
                    assert(i / 64 == k && i % 64 == j) by (nonlinear_arith)
                        requires
                            i == 64 * k + j,
                            j < 64,
                    ;
                    assert(i < 64 * n) by (nonlinear_arith)
                        requires
                            i == 64 * k + j,
                            j < 64,
                            k < n,
                    ;
                    assert(i < self.stored().len() && i < b.stored().len()) by (nonlinear_arith)
                        requires
                            i < 64 * n,
                            n <= self.bits@.len(),
                            n <= b.bits@.len(),
                    ;
                    if disjoint {
                        lemma_bit_and(x, y, j);
                    } else {
                        lemma_bit_not_and(x, y, j);
                    }
                    assert(b.stored()[i] && (if disjoint {
                        self.stored()[i]
                    } else {
                        !self.stored()[i]
                    }));
                }
                return true;
            }
            proof {
                assert forall|i: int| 0 <= i < 64 * (k + 1) implies !(#[trigger] b.stored()[i]
                    && (if disjoint {
                    self.stored()[i]
                } else {
                    !self.stored()[i]
                })) by {
                    if i >= 64 * k {
                        let j = i - 64 * k;
                        assert(i / 64 == k && i % 64 == j) by (nonlinear_arith)
                            requires
                                j == i - 64 * k,
                                0 <= j < 64,
                        ;
                        assert(i < self.stored().len() && i < b.stored().len()) by (
                        nonlinear_arith)
                            requires
                                i < 64 * (k + 1),
                                k < n,
                                n <= self.bits@.len(),
                                n <= b.bits@.len(),
                        ;
                        lemma_zero_has_no_bit(j);
                        if disjoint {
                            lemma_bit_and(x, y, j as u64);
                        } else {
                            lemma_bit_not_and(x, y, j as u64);
                        }
                    }
                }
            }
            k = k + 1;
        }
        false
    }

    /// Returns true iff every bit set in b is also set here.
    ///
    /// Requires self.len() == b.len()
    pub fn contains(&self, b: &BitArray) -> (r: bool)
        requires
            self.wf(),
            b.wf(),
            self.size() == b.size(),
        ensures
            r == forall|i: int| 0 <= i < self@.len() ==> (#[trigger] b@[i] ==> self@[i]),
    {
        let r = !self.any_word_pair(b, false);
        proof {
            self.lemma_stored();
            b.lemma_stored();
            let n = spec_min(self.bits@.len() as int, b.bits@.len() as int);
            assert(n == self.bits@.len());
            if r {
                assert forall|i: int| 0 <= i < self@.len() && #[trigger] b@[i] implies self@[i] by {
                    assert(!(b.stored()[i] && !self.stored()[i]));
                }
            } else {
                let i = choose|i: int|
                    0 <= i < 64 * n && #[trigger] b.stored()[i] && !self.stored()[i];
                assert(i < self.sz);
                assert(b@[i] && !self@[i]);
            }
        }
        r
    }

    /// Returns true iff no bit is set both here and in b: every bit set in b
    /// lies in the negation of this array.
    pub fn negation_contains(&self, b: &BitArray) -> (r: bool)
        requires
            self.wf(),
            b.wf(),
        ensures
            r == forall|i: int|
                0 <= i < spec_min(self@.len() as int, b@.len() as int) ==> !(#[trigger] b@[i]
                    && self@[i]),
    {
        let r = !self.any_word_pair(b, true);
        proof {
            self.lemma_stored();
            b.lemma_stored();
            let n = spec_min(self.bits@.len() as int, b.bits@.len() as int);
            assert(64 * n <= self.stored().len() && 64 * n <= b.stored().len());
            if r {
                assert forall|i: int|
                    0 <= i < spec_min(self@.len() as int, b@.len() as int) implies !(
                #[trigger] b@[i] && self@[i]) by {
                    assert(!(b.stored()[i] && self.stored()[i]));
                }
            } else {
                let i = choose|i: int| 0 <= i < 64 * n && #[trigger] b.stored()[i] && self.stored()[i];
                assert(i < self.sz && i < b.sz);
                assert(b@[i] && self@[i]);
            }
        }
        r
    }

    /// Return a BitArray containing false whereever 'self' contains
    /// true, and vice versa.
    pub fn negate(&self) -> (r: BitArray)
        requires
            self.wf(),
        ensures
            r.wf(),
            r.size() == self.size(),
            r@.len() == self@.len(),
            forall|i: int| 0 <= i < self@.len() ==> #[trigger] r@[i] == !self@[i],
    {
        let mut bits: Vec<u64> = Vec::new();
        let mut k: usize = 0;
        while k < self.bits.len()
            invariant
                k <= self.bits@.len(),
                bits@.len() == k,
                forall|j: int| 0 <= j < k ==> bits@[j] == !self.bits@[j],
            decreases self.bits@.len() - k,
        {
            bits.push(!self.bits[k]);
            k = k + 1;
        }
        let n = bits.len();
        let tail: usize = self.sz % 64;
        proof {
            if tail != 0 {
                assert(n >= 1 && self.sz == 64 * (n - 1) + tail) by (nonlinear_arith)
                    requires
                        n == (self.sz + 63) / 64,
                        tail == self.sz % 64,
                        tail != 0,
                ;
            } else {
                assert(self.sz == 64 * n) by (nonlinear_arith)
                    requires
                        n == (self.sz + 63) / 64,
                        tail == self.sz % 64,
                        tail == 0,
                ;
            }
        }
        let ghost flipped = bits@;
        if tail != 0 {
            proof {
                lemma_low_mask(tail as u64, 0);
            }
            let w = bits[n - 1];
            bits.set(n - 1, w & ((1u64 << (tail as u64)) - 1));
        }
        let r = BitArray { bits, sz: self.sz };
        proof {
            self.lemma_stored();
            r.lemma_stored();
            assert forall|i: int| 0 <= i < r.stored().len() implies #[trigger] r.stored()[i] == (i
                < self.sz && !self.stored()[i]) by {
                r.lemma_word_index(i);
                self.lemma_word_index(i);
                let q = i / 64;
                let j = (i % 64) as u64;
                lemma_bit_not(self.bits@[q], j);
                if tail != 0 && q == n - 1 {
                    assert(i % 64 == i - 64 * (n - 1)) by (nonlinear_arith)
                        requires
                            q == i / 64,
                            q == n - 1,
                            0 <= i,
                    ;
                    lemma_bit_and(flipped[q], ((1u64 << (tail as u64)) - 1) as u64, j);
                    lemma_low_mask(tail as u64, j);
                } else if tail != 0 {
                    assert(i < 64 * (n - 1)) by (nonlinear_arith)
                        requires
                            q == i / 64,
                            0 <= q < n - 1,
                            i >= 0,
                    ;
                } else {
                    assert(i < 64 * n) by (nonlinear_arith)
                        requires
                            q == i / 64,
                            0 <= q < n,
                            i >= 0,
                    ;
                }
            }
        }
        r
    }

    /// Return a BitArray containing the bitwise operation 'f' applied
    /// to every corresponding pair of u64 elements in 'self' and 'p'.
    ///
    /// (This is a helper used to implement set operations.)
    ///
    /// Requires self.len() == p.len()
    fn combine<F: Fn(u64, u64) -> u64>(&self, p: &BitArray, f: F) -> (r: BitArray)
        requires
            self.wf(),
            p.wf(),
            self.size() == p.size(),
            forall|x: u64, y: u64| f.requires((x, y)),
        ensures
            r.sz == self.sz,
            r.bits@.len() == self.bits@.len(),
            forall|k: int|
                0 <= k < self.bits@.len() ==> f.ensures(
                    (self.bits@[k], p.bits@[k]),
                    #[trigger] r.bits@[k],
                ),
    {
        let mut bits: Vec<u64> = Vec::new();
        let mut k: usize = 0;
        while k < self.bits.len()
            invariant
                k <= self.bits@.len(),
                self.bits@.len() == p.bits@.len(),
                bits@.len() == k,
                forall|x: u64, y: u64| f.requires((x, y)),
                forall|j: int|
                    0 <= j < k ==> f.ensures((self.bits@[j], p.bits@[j]), #[trigger] bits@[j]),
            decreases self.bits@.len() - k,
        {
            let w = f(self.bits[k], p.bits[k]);
            bits.push(w);
            k = k + 1;
        }
        BitArray { bits, sz: self.sz }
    }

    /// Return the set intersection of two bitarrays.
    ///
    /// Requires self.len() == p.len()
    pub fn intersect(&self, p: &BitArray) -> (r: BitArray)
        requires
            self.wf(),
            p.wf(),
            self.size() == p.size(),
        ensures
            r.wf(),
            r.size() == self.size(),
            r@.len() == self@.len(),
            forall|i: int| 0 <= i < self@.len() ==> #[trigger] r@[i] == (self@[i] && p@[i]),
    {
        let r = self.combine(p, |a: u64, b: u64| -> (c: u64) ensures c == a & b { a & b });
        proof {
            assert forall|i: int| 0 <= i < r.stored().len() implies #[trigger] r.stored()[i] == (
            self.stored()[i] && p.stored()[i]) by {
                r.lemma_word_index(i);
                self.lemma_word_index(i);
                p.lemma_word_index(i);
                lemma_bit_and(self.bits@[i / 64], p.bits@[i / 64], (i % 64) as u64);
            }
            self.lemma_stored();
            p.lemma_stored();
            r.lemma_stored();
        }
        r
    }

    /// Return the set union of two bitarrays.
    ///
    /// Requires self.len() == p.len()
    pub fn union(&self, p: &BitArray) -> (r: BitArray)
        requires
            self.wf(),
            p.wf(),
            self.size() == p.size(),
        ensures
            r.wf(),
            r.size() == self.size(),
            r@.len() == self@.len(),
            forall|i: int| 0 <= i < self@.len() ==> #[trigger] r@[i] == (self@[i] || p@[i]),
    {
        let r = self.combine(p, |a: u64, b: u64| -> (c: u64) ensures c == a | b { a | b });
        proof {
            assert forall|i: int| 0 <= i < r.stored().len() implies #[trigger] r.stored()[i] == (
            self.stored()[i] || p.stored()[i]) by {
                r.lemma_word_index(i);
                self.lemma_word_index(i);
                p.lemma_word_index(i);
                lemma_bit_or(self.bits@[i / 64], p.bits@[i / 64], (i % 64) as u64);
            }
            self.lemma_stored();
            p.lemma_stored();
            r.lemma_stored();
        }
        r
    }

    /// Return the set subtraction of two bitarrays.
    ///
    /// Requires self.len() == p.len()
    pub fn subtract(&self, p: &BitArray) -> (r: BitArray)
        requires
            self.wf(),
            p.wf(),
            self.size() == p.size(),
        ensures
            r.wf(),
            r.size() == self.size(),
            r@.len() == self@.len(),
            forall|i: int| 0 <= i < self@.len() ==> #[trigger] r@[i] == (self@[i] && !p@[i]),
    {
        let r = self.combine(p, |a: u64, b: u64| -> (c: u64) ensures c == a & !b { a & !b });
        proof {
            assert forall|i: int| 0 <= i < r.stored().len() implies #[trigger] r.stored()[i] == (
            self.stored()[i] && !p.stored()[i]) by {
                r.lemma_word_index(i);
                self.lemma_word_index(i);
                p.lemma_word_index(i);
                lemma_bit_and_not(self.bits@[i / 64], p.bits@[i / 64], (i % 64) as u64);
            }
            self.lemma_stored();
            p.lemma_stored();
            r.lemma_stored();
        }
        r
    }

    /// Return the number of set bits.
    pub fn count(&self) -> (r: u32)
        requires
            self.wf(),
            count_true(self@) <= u32::MAX,
        ensures
            r == count_true(self@),
    {
        let mut acc: u32 = 0;
        let mut k: usize = 0;
        let n = self.bits.len();
        let ghost s = self.stored();
        proof {
            self.lemma_count_stored();
            assert(s.take(0) =~= Seq::<bool>::empty());
        }
        while k < n
            invariant
                k <= n,
                n == self.bits@.len(),
                s == self.stored(),
                count_true(s) <= u32::MAX,
                acc == count_true(s.take(64 * k)),
            decreases n - k,
        {
            let c = word_count(self.bits[k]);
            proof {
                lemma_words_view_take_step(self.bits@, k as int);
                lemma_count_concat(s.take(64 * k), word_bits(self.bits@[k as int]));
                assert(64 * (k + 1) <= s.len()) by (nonlinear_arith)
                    requires
                        k < n,
                        s.len() == n * 64,
                ;
                lemma_count_prefix_le(s, 64 * (k + 1));
            }
            acc = acc + c;
            k = k + 1;
        }
        proof {
            assert(s.take(64 * n) =~= s);
        }
        acc
    }

    /// Grow this bit array so that it can hold at least 'sz'
    /// elements.  Fill new bits with false.
    pub fn grow(&mut self, sz: usize)
        requires
            old(self).wf(),
            sz <= usize::MAX - 63,
        ensures
            final(self).wf(),
            sz < old(self).size() ==> *final(self) == *old(self),
            sz >= old(self).size() ==> final(self).size() == spec_ceil_div(sz as int, 64) * 64,
            final(self).size() >= old(self).size(),
            final(self)@.len() == final(self).size(),
            forall|i: int| 0 <= i < old(self)@.len() ==> #[trigger] final(self)@[i] == old(self)@[i],
            forall|i: int|
                old(self)@.len() <= i < final(self)@.len() ==> !#[trigger] final(self)@[i],
    {
        proof {
            self.lemma_stored();
        }
        if sz < self.sz {
            return;
        }
        let n = ceil_div(sz, 64);
        proof {
            assert(n >= self.bits@.len()) by (nonlinear_arith)
                requires
                    n == (sz + 63) / 64,
                    self.bits@.len() == (self.sz + 63) / 64,
                    sz >= self.sz,
            ;
            assert(sz <= n * 64 <= sz + 63) by (nonlinear_arith)
                requires
                    n == (sz + 63) / 64,
            ;
        }
        let ghost old_bits = self.bits@;
        self.bits.resize(n, 0u64);
        self.sz = n * 64;
        proof {
            assert((n * 64 + 63) / 64 == n) by (nonlinear_arith);
            self.lemma_stored();
            assert forall|k: int| 0 <= k < old_bits.len() implies self.bits@[k] == old_bits[k] by {
                assert(self.bits@.subrange(0, old_bits.len() as int)[k] == self.bits@[k]);
            }
            assert forall|i: int| 0 <= i < self.stored().len() implies #[trigger] self.stored()[i]
                == (i < old(self).sz && old(self)@[i]) by {
                self.lemma_word_index(i);
                if i < old_bits.len() * 64 {
                    old(self).lemma_word_index(i);
                } else {
                    assert(old_bits.len() <= i / 64) by (nonlinear_arith)
                        requires
                            old_bits.len() * 64 <= i,
                    ;
                    lemma_zero_has_no_bit(i % 64);
                }
            }
        }
    }

    /// Build an array from a sequence of booleans: the array starts as 64
    /// clear bits and grows in steps of 64 as the booleans need room.
    pub fn from_iter(vals: &[bool]) -> (r: BitArray)
        requires
            vals@.len() <= usize::MAX - 63,
        ensures
            r.wf(),
            r.size() == 64 * if vals@.len() <= 64 {
                1
            } else {
                spec_ceil_div(vals@.len() as int, 64)
            },
            r@.len() == r.size(),
            forall|i: int| 0 <= i < vals@.len() ==> #[trigger] r@[i] == vals@[i],
            forall|i: int| vals@.len() <= i < r@.len() ==> !#[trigger] r@[i],
    {
        let mut result = BitArray::new(64, false);
        let mut i: usize = 0;
        while i < vals.len()
            invariant
                i <= vals@.len(),
                vals@.len() <= usize::MAX - 63,
                result.wf(),
                result.size() == 64 * if i <= 64 {
                    1
                } else {
                    spec_ceil_div(i as int, 64)
                },
                result@.len() == result.size(),
                forall|j: int| 0 <= j < i ==> #[trigger] result@[j] == vals@[j],
                forall|j: int| i <= j < result@.len() ==> !#[trigger] result@[j],
            decreases vals@.len() - i,
        {
            result.grow(i + 1);
            proof {
                if i + 1 >= 64 {
                    assert(spec_ceil_div((i + 1) as int, 64) * 64 >= i + 1) by (nonlinear_arith);
                }
            }
            result.set_bit(i, vals[i]);
            proof {
                if i + 1 <= 64 {
                } else if i < 64 {
                } else {
                    assert(spec_ceil_div(i as int, 64) <= spec_ceil_div((i + 1) as int, 64))
                        by (nonlinear_arith);
                }
            }
            i = i + 1;
        }
        result
    }

    /// Two arrays are equal when they hold the same size and the same bits.
    pub fn equals(&self, other: &BitArray) -> (r: bool)
        requires
            self.wf(),
            other.wf(),
        ensures
            r == (self.size() == other.size() && self@ == other@),
    {
        if self.sz != other.sz {
            return false;
        }
        let mut k: usize = 0;
        while k < self.bits.len()
            invariant
                k <= self.bits@.len(),
                self.wf(),
                other.wf(),
                self.sz == other.sz,
                self.bits@.len() == other.bits@.len(),
                forall|j: int| 0 <= j < k ==> self.bits@[j] == other.bits@[j],
            decreases self.bits@.len() - k,
        {
            if self.bits[k] != other.bits[k] {
                proof {
                    if self@ == other@ {
                        self.lemma_stored_eq(other);
                        assert forall|j: int| 0 <= j < 64 implies word_bit(self.bits@[k as int], j)
                            == word_bit(other.bits@[k as int], j) by {
                            let i = 64 * k + j;
                            assert(i / 64 == k && i % 64 == j) by (nonlinear_arith)
                                requires
                                    i == 64 * k + j,
                                    0 <= j < 64,
                            ;
                            assert(i < self.bits@.len() * 64) by (nonlinear_arith)
                                requires
                                    i == 64 * k + j,
                                    0 <= j < 64,
                                    k < self.bits@.len(),
                            ;
                            assert(self.stored()[i] == other.stored()[i]);
                        }
                        lemma_word_bits_eq(self.bits@[k as int], other.bits@[k as int]);
                    }
                }
                return false;
            }
            k = k + 1;
        }
        proof {
            assert(self.bits@ =~= other.bits@);
        }
        true
    }
}

/// Counting the union and the intersection of two arrays of one size gives
/// as many set bits as counting the two arrays.
pub proof fn lemma_count_union_intersect(a: BitArray, b: BitArray, u: BitArray, n: BitArray)
    requires
        a.wf(),
        b.wf(),
        a.size() == b.size(),
        u@.len() == a@.len(),
        n@.len() == a@.len(),
        forall|i: int| 0 <= i < a@.len() ==> #[trigger] u@[i] == (a@[i] || b@[i]),
        forall|i: int| 0 <= i < a@.len() ==> #[trigger] n@[i] == (a@[i] && b@[i]),
    ensures
        count_true(u@) + count_true(n@) == count_true(a@) + count_true(b@),
{
    a.lemma_stored();
    b.lemma_stored();
    let only = Seq::new(a@.len(), |i: int| a@[i] && !b@[i]);
    lemma_count_split(a@, b@, n@, only);
    lemma_count_disjoint_union(b@, only, u@);
}

/// Counting the difference and the intersection of two arrays of one size
/// gives as many set bits as counting the first.
pub proof fn lemma_count_subtract_intersect(a: BitArray, b: BitArray, d: BitArray, n: BitArray)
    requires
        a.wf(),
        b.wf(),
        a.size() == b.size(),
        d@.len() == a@.len(),
        n@.len() == a@.len(),
        forall|i: int| 0 <= i < a@.len() ==> #[trigger] d@[i] == (a@[i] && !b@[i]),
        forall|i: int| 0 <= i < a@.len() ==> #[trigger] n@[i] == (a@[i] && b@[i]),
    ensures
        count_true(d@) + count_true(n@) == count_true(a@),
{
    a.lemma_stored();
    b.lemma_stored();
    lemma_count_split(a@, b@, n@, d@);
}

/// The number of set bits of a word.
fn word_count(w: u64) -> (c: u32)
    ensures
        c == count_true(word_bits(w)),
        c <= 64,
{
    let mut c: u32 = 0;
    let mut j: u64 = 0;
    proof {
        assert(word_bits(w).take(0) =~= Seq::<bool>::empty());
    }
    while j < 64
        invariant
            j <= 64,
            c <= j,
            c == count_true(word_bits(w).take(j as int)),
        decreases 64 - j,
    {
        proof {
            lemma_count_take_step(word_bits(w), j as int);
        }
        if (w >> j) & 1 == 1 {
            c = c + 1;
        }
        j = j + 1;
    }
    proof {
        assert(word_bits(w).take(64) =~= word_bits(w));
    }
    c
}

} // verus!
