//! Bits of a 64-bit word, sequences of such words seen as one long sequence
//! of booleans, and counting the `true` entries of a boolean sequence.

use vstd::prelude::*;

verus! {

/// Bit `j` (counting from the least significant bit) of `w`.
pub open spec fn word_bit(w: u64, j: int) -> bool {
    ((w >> (j as u64)) & 1u64) == 1u64
}

/// The 64 bits of `w`, least significant first.
pub open spec fn word_bits(w: u64) -> Seq<bool> {
    Seq::new(64, |j: int| word_bit(w, j))
}

/// The words `ws` laid end to end: position `i` is bit `i % 64` of word `i / 64`.
pub open spec fn words_view(ws: Seq<u64>) -> Seq<bool> {
    Seq::new((ws.len() * 64) as nat, |i: int| word_bit(ws[i / 64], i % 64))
}

/// The number of `true` entries of `s`.
pub open spec fn count_true(s: Seq<bool>) -> nat
    decreases s.len(),
{
    if s.len() == 0 {
        0
    } else {
        count_true(s.drop_last()) + if s.last() { 1nat } else { 0nat }
    }
}

/// A bit of `a & b` is set when it is set in both.
pub proof fn lemma_bit_and(a: u64, b: u64, j: u64)
    by (bit_vector)
    requires
        j < 64,
    ensures
        (((a & b) >> j) & 1u64 == 1u64) == ((((a >> j) & 1u64) == 1u64) && (((b >> j) & 1u64)
            == 1u64)),
{
}

/// A bit of `a | b` is set when it is set in either.
pub proof fn lemma_bit_or(a: u64, b: u64, j: u64)
    by (bit_vector)
    requires
        j < 64,
    ensures
        (((a | b) >> j) & 1u64 == 1u64) == ((((a >> j) & 1u64) == 1u64) || (((b >> j) & 1u64)
            == 1u64)),
{
}

/// A bit of `!a` is set when it is clear in `a`.
pub proof fn lemma_bit_not(a: u64, j: u64)
    by (bit_vector)
    requires
        j < 64,
    ensures
        (((!a) >> j) & 1u64 == 1u64) == !(((a >> j) & 1u64) == 1u64),
{
}

/// A bit of `a & !b` is set when it is set in `a` and clear in `b`.
pub proof fn lemma_bit_and_not(a: u64, b: u64, j: u64)
    by (bit_vector)
    requires
        j < 64,
    ensures
        (((a & !b) >> j) & 1u64 == 1u64) == ((((a >> j) & 1u64) == 1u64) && !(((b >> j) & 1u64)
            == 1u64)),
{
}

/// A bit of `!a & b` is set when it is clear in `a` and set in `b`.
pub proof fn lemma_bit_not_and(a: u64, b: u64, j: u64)
    by (bit_vector)
    requires
        j < 64,
    ensures
        (((!a & b) >> j) & 1u64 == 1u64) == (!(((a >> j) & 1u64) == 1u64) && (((b >> j) & 1u64)
            == 1u64)),
{
}

/// No bit of the zero word is set; every bit of the all-ones word is.
pub proof fn lemma_bit_fill(j: u64)
    by (bit_vector)
    requires
        j < 64,
    ensures
        ((0u64 >> j) & 1u64) != 1u64,
        ((!0u64 >> j) & 1u64) == 1u64,
{
}

/// Or-ing in `1 << k` sets bit `k` only; and-ing with its negation clears it only.
pub proof fn lemma_bit_set(w: u64, k: u64, j: u64)
    by (bit_vector)
    requires
        j < 64,
        k < 64,
    ensures
        (((w | (1u64 << k)) >> j) & 1u64 == 1u64) == (j == k || ((w >> j) & 1u64) == 1u64),
        (((w & !(1u64 << k)) >> j) & 1u64 == 1u64) == (j != k && ((w >> j) & 1u64) == 1u64),
{
}

/// The mask `(1 << k) - 1` has exactly the bits below `k` set.
pub proof fn lemma_low_mask(k: u64, j: u64)
    by (bit_vector)
    requires
        k < 64,
        j < 64,
    ensures
        ((((1u64 << k) - 1u64) as u64 >> j) & 1u64 == 1u64) == (j < k),
        ((1u64 << k) as u64) >= 1u64,
{
}

/// Testing a word against the mask `1 << k` reads bit `k`.
pub proof fn lemma_bit_mask(w: u64, k: u64)
    by (bit_vector)
    requires
        k < 64,
    ensures
        ((w & (1u64 << k)) != 0u64) == (((w >> k) & 1u64) == 1u64),
{
}

/// The low six bits of a number are its remainder modulo 64.
pub proof fn lemma_low_six_bits(b: u64)
    by (bit_vector)
    ensures
        b & 0x3fu64 == b % 64,
{
}

/// Bit `j` of `w >> 1` is bit `j + 1` of `w`.
proof fn lemma_low_bit_shift(w: u64, j: u64)
    by (bit_vector)
    requires
        j < 63,
    ensures
        (((w >> 1u64) >> j) & 1u64 == 1u64) == ((w >> (j + 1) as u64) & 1u64 == 1u64),
{
}

/// A word other than zero whose bits from `hi` up are clear has a set bit below `hi`.
proof fn lemma_nonzero_bit_rec(w: u64, hi: u64) -> (j: u64)
    requires
        w != 0,
        hi <= 64,
        w >> hi == 0,
    ensures
        j < hi,
        word_bit(w, j as int),
    decreases hi,
{
    assert(hi != 0) by (bit_vector)
        requires
            w != 0,
            hi <= 64,
            w >> hi == 0,
    ;
    assert(w >> 0u64 == w) by (bit_vector);
    if w & 1 == 1 {
        0
    } else {
        let v = w >> 1u64;
        assert(v != 0 && v >> ((hi - 1) as u64) == 0) by (bit_vector)
            requires
                w & 1 != 1,
                w != 0,
                hi <= 64,
                hi != 0,
                w >> hi == 0,
                v == w >> 1u64,
        ;
        let k = lemma_nonzero_bit_rec(v, (hi - 1) as u64);
        lemma_low_bit_shift(w, k);
        (k + 1) as u64
    }
}

/// A word other than zero has a set bit.
pub proof fn lemma_nonzero_has_bit(w: u64) -> (j: u64)
    requires
        w != 0,
    ensures
        j < 64,
        word_bit(w, j as int),
{
    assert(w >> 64u64 == 0) by (bit_vector);
    lemma_nonzero_bit_rec(w, 64)
}

/// A bit of `a ^ b` is set when the bits of `a` and `b` differ.
pub proof fn lemma_bit_xor(a: u64, b: u64, j: u64)
    by (bit_vector)
    requires
        j < 64,
    ensures
        (((a ^ b) >> j) & 1u64 == 1u64) == ((((a >> j) & 1u64) == 1u64) != (((b >> j) & 1u64)
            == 1u64)),
{
}

/// Two words are equal exactly when their exclusive or is zero.
proof fn lemma_xor_zero(a: u64, b: u64)
    by (bit_vector)
    ensures
        (a ^ b == 0u64) == (a == b),
{
}

/// Two words with the same bits are the same word.
pub proof fn lemma_word_bits_eq(a: u64, b: u64)
    requires
        forall|j: int| 0 <= j < 64 ==> word_bit(a, j) == word_bit(b, j),
    ensures
        a == b,
{
    lemma_xor_zero(a, b);
    if a ^ b != 0 {
        let j = lemma_nonzero_has_bit(a ^ b);
        lemma_bit_xor(a, b, j);
        assert(word_bit(a, j as int) == word_bit(b, j as int));
    }
}

/// The zero word has no set bit.
pub proof fn lemma_zero_has_no_bit(j: int)
    requires
        0 <= j < 64,
    ensures
        !word_bit(0, j),
{
    lemma_bit_fill(j as u64);
}

/// Counting distributes over concatenation.
pub proof fn lemma_count_concat(a: Seq<bool>, b: Seq<bool>)
    ensures
        count_true(a + b) == count_true(a) + count_true(b),
    decreases b.len(),
{
    if b.len() == 0 {
        assert(a + b =~= a);
    } else {
        lemma_count_concat(a, b.drop_last());
        assert((a + b).drop_last() =~= a + b.drop_last());
    }
}

/// The count of a sequence never exceeds its length.
pub proof fn lemma_count_le_len(s: Seq<bool>)
    ensures
        count_true(s) <= s.len(),
    decreases s.len(),
{
    if s.len() > 0 {
        lemma_count_le_len(s.drop_last());
    }
}

/// Counting over a prefix one element longer.
pub proof fn lemma_count_take_step(s: Seq<bool>, k: int)
    requires
        0 <= k < s.len(),
    ensures
        count_true(s.take(k + 1)) == count_true(s.take(k)) + if s[k] { 1nat } else { 0nat },
{
    assert(s.take(k + 1).drop_last() =~= s.take(k));
}

/// Counting a pointwise disjunction of two sequences that are never both true.
pub proof fn lemma_count_disjoint_union(a: Seq<bool>, b: Seq<bool>, u: Seq<bool>)
    requires
        a.len() == b.len(),
        u.len() == a.len(),
        forall|i: int| 0 <= i < a.len() ==> !(a[i] && b[i]),
        forall|i: int| 0 <= i < a.len() ==> u[i] == (a[i] || b[i]),
    ensures
        count_true(u) == count_true(a) + count_true(b),
    decreases a.len(),
{
    if a.len() > 0 {
        lemma_count_disjoint_union(a.drop_last(), b.drop_last(), u.drop_last());
    }
}

/// Splitting a sequence `a` by a second sequence `b`: the positions where both
/// hold and those where only `a` holds.
pub proof fn lemma_count_split(a: Seq<bool>, b: Seq<bool>, both: Seq<bool>, only: Seq<bool>)
    requires
        a.len() == b.len(),
        both.len() == a.len(),
        only.len() == a.len(),
        forall|i: int| 0 <= i < a.len() ==> both[i] == (a[i] && b[i]),
        forall|i: int| 0 <= i < a.len() ==> only[i] == (a[i] && !b[i]),
    ensures
        count_true(a) == count_true(both) + count_true(only),
{
    lemma_count_disjoint_union(both, only, a);
}

/// A sequence that is pointwise implied by another counts no more.
pub proof fn lemma_count_mono(a: Seq<bool>, b: Seq<bool>)
    requires
        a.len() == b.len(),
        forall|i: int| 0 <= i < a.len() && a[i] ==> b[i],
    ensures
        count_true(a) <= count_true(b),
    decreases a.len(),
{
    if a.len() > 0 {
        lemma_count_mono(a.drop_last(), b.drop_last());
    }
}

/// A sequence that is all `false` counts zero; one with a `true` counts more.
pub proof fn lemma_count_zero_iff(s: Seq<bool>)
    ensures
        count_true(s) == 0 <==> forall|i: int| 0 <= i < s.len() ==> !s[i],
    decreases s.len(),
{
    if s.len() > 0 {
        lemma_count_zero_iff(s.drop_last());
        if count_true(s) == 0 {
            assert forall|i: int| 0 <= i < s.len() implies !s[i] by {
                if i < s.len() - 1 {
                    assert(s[i] == s.drop_last()[i]);
                }
            }
        }
    }
}

/// A prefix never counts more than the whole sequence.
pub proof fn lemma_count_prefix_le(s: Seq<bool>, m: int)
    requires
        0 <= m <= s.len(),
    ensures
        count_true(s.take(m)) <= count_true(s),
{
    lemma_count_concat(s.take(m), s.skip(m));
    assert(s.take(m) + s.skip(m) =~= s);
}

/// The prefix of the view that ends after word `k` is the prefix that ends
/// before it, followed by the bits of word `k`.
pub proof fn lemma_words_view_take_step(ws: Seq<u64>, k: int)
    requires
        0 <= k < ws.len(),
    ensures
        words_view(ws).take(64 * (k + 1)) =~= words_view(ws).take(64 * k) + word_bits(ws[k]),
{
    let v = words_view(ws);
    let l = v.take(64 * (k + 1));
    let r = v.take(64 * k) + word_bits(ws[k]);
    assert(64 * (k + 1) <= ws.len() * 64) by (nonlinear_arith)
        requires
            k < ws.len(),
    ;
    assert(l.len() == r.len());
    assert forall|i: int| 0 <= i < l.len() implies l[i] == r[i] by {
        if i >= 64 * k {
            assert(i / 64 == k && i % 64 == i - 64 * k) by (nonlinear_arith)
                requires
                    64 * k <= i < 64 * k + 64,
            ;
        }
    }
}

} // verus!
