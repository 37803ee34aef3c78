//! Reading back what a policy is written as: "p accept " followed by the
//! text of its spans is a policy line that gives the policy again.

use vstd::prelude::*;
use vstd::utf8::{encode_utf8, is_ascii_chars, is_ascii_chars_encode_utf8};
use crate::bits::{count_true, lemma_count_zero_iff};
use crate::display::{decimal, span_text, spans_text, is_spans, in_span};
use crate::parse::{
    split, first_index, lemma_first_index, lemma_first_index_is, accept_bytes, is_digits,
    digits_value, spec_parse_u16, item_bounds, item_ok, covered, spec_line_header, line_ok,
    spec_line_policy, spec_read_line,
};
use crate::policy::N_PORTS;

verus! {

/// The characters "p accept ".
pub open spec fn accept_prefix() -> Seq<char> {
    seq!['p', ' ', 'a', 'c', 'c', 'e', 'p', 't', ' ']
}

/// The bytes of ASCII characters.
spec fn to_bytes(t: Seq<char>) -> Seq<u8> {
    Seq::new(t.len(), |i: int| t[i] as u8)
}

/// `s` holds no byte `c`.
spec fn lacks(s: Seq<u8>, c: u8) -> bool {
    forall|j: int| 0 <= j < s.len() ==> s[j] != c
}

proof fn lemma_to_bytes_add(a: Seq<char>, b: Seq<char>)
    ensures
        to_bytes(a + b) =~= to_bytes(a) + to_bytes(b),
{
}

/// The digits of `n` are ASCII digits, there is at least one, and they read
/// back as `n`.
proof fn lemma_decimal(n: nat)
    ensures
        is_ascii_chars(decimal(n)),
        to_bytes(decimal(n)).len() > 0,
        is_digits(to_bytes(decimal(n))),
        digits_value(to_bytes(decimal(n))) == n,
    decreases n,
{
    let d = decimal(n);
    if n < 10 {
        assert(d[0] as u8 == 48 + n);
        assert(to_bytes(d) =~= seq![(48 + n) as u8]);
        assert(to_bytes(d).drop_last() =~= Seq::<u8>::empty());
        assert(digits_value(to_bytes(d)) == digits_value(to_bytes(d).drop_last()) * 10 + (
        to_bytes(d).last() - 48));
    } else {
        lemma_decimal(n / 10);
        let e = decimal(n / 10);
        assert(d == e.push((48 + n % 10) as char));
        assert(to_bytes(d).drop_last() =~= to_bytes(e));
        assert(to_bytes(d).last() == 48 + n % 10);
        assert(is_ascii_chars(d)) by {
            assert forall|i: int| 0 <= i < d.len() implies '\0' <= #[trigger] d[i] <= '\u{7f}' by {
                if i < e.len() {
                    assert(d[i] == e[i]);
                }
            }
        }
        assert(is_digits(to_bytes(d))) by {
            assert forall|j: int| 0 <= j < to_bytes(d).len() implies 48 <= #[trigger] to_bytes(
                d,
            )[j] <= 57 by {
                if j < e.len() {
                    assert(to_bytes(d)[j] == to_bytes(e)[j]);
                }
            }
        }
        assert(digits_value(to_bytes(d)) == digits_value(to_bytes(d).drop_last()) * 10 + (
        to_bytes(d).last() - 48));
        assert(n == (n / 10) * 10 + n % 10);
    }
}

/// Digits hold neither a comma nor a hyphen.
proof fn lemma_digits_lack(s: Seq<u8>)
    requires
        is_digits(s),
    ensures
        lacks(s, 44u8),
        lacks(s, 45u8),
{
    assert forall|j: int| 0 <= j < s.len() implies s[j] != 44u8 && s[j] != 45u8 by {
        assert(48 <= s[j] <= 57);
    }
}

/// A piece without `c` splits into itself.
proof fn lemma_split_single(s: Seq<u8>, c: u8)
    requires
        lacks(s, c),
    ensures
        split(s, c) == seq![s],
{
    lemma_first_index_is(s, c, s.len() as int);
}

/// Splitting `a`, a separator `c` and a piece `s` without `c` gives the
/// pieces of `a` followed by `s`.
proof fn lemma_split_append(a: Seq<u8>, c: u8, s: Seq<u8>)
    requires
        lacks(s, c),
    ensures
        split(a + seq![c] + s, c) == split(a, c) + seq![s],
    decreases a.len(),
{
    let x = a + seq![c] + s;
    lemma_first_index(a, c);
    let k = first_index(a, c);
    if k < a.len() {
        assert forall|j: int| 0 <= j < k implies x[j] != c by {
            assert(x[j] == a[j]);
        }
        assert(x[k] == a[k]);
        lemma_first_index_is(x, c, k);
        assert(x.take(k) =~= a.take(k));
        assert(x.skip(k + 1) =~= a.skip(k + 1) + seq![c] + s);
        lemma_split_append(a.skip(k + 1), c, s);
        assert(split(a, c) == seq![a.take(k)] + split(a.skip(k + 1), c));
        assert(split(x, c) == seq![x.take(k)] + split(x.skip(k + 1), c));
        assert(split(x, c) =~= split(a, c) + seq![s]);
    } else {
        assert forall|j: int| 0 <= j < a.len() implies x[j] != c by {
            assert(x[j] == a[j]);
        }
        lemma_first_index_is(x, c, a.len() as int);
        assert(x.take(a.len() as int) =~= a);
        assert(x.skip(a.len() + 1 as int) =~= s);
        lemma_split_single(s, c);
        assert(split(a, c) == seq![a]);
        assert(split(x, c) =~= split(a, c) + seq![s]);
    }
}

/// The text of a span is ASCII without commas, and reads back as the span.
proof fn lemma_span_reads(s: (u16, u16))
    requires
        1 <= s.0 <= s.1,
    ensures
        is_ascii_chars(span_text(s)),
        lacks(to_bytes(span_text(s)), 44u8),
        item_bounds(to_bytes(span_text(s))) == Some((s.0 as int, s.1 as int)),
{
    lemma_decimal(s.0 as nat);
    lemma_decimal(s.1 as nat);
    let d0 = to_bytes(decimal(s.0 as nat));
    let d1 = to_bytes(decimal(s.1 as nat));
    lemma_digits_lack(d0);
    lemma_digits_lack(d1);
    assert(d0[0] != 43u8);
    assert(d1[0] != 43u8);
    assert(spec_parse_u16(d0) == Some(s.0 as int));
    assert(spec_parse_u16(d1) == Some(s.1 as int));
    let t = to_bytes(span_text(s));
    if s.0 == s.1 {
        lemma_split_single(d0, 45u8);
        assert(split(t, 45u8) =~= seq![d0]);
    } else {
        let dash = seq!['-'];
        lemma_to_bytes_add(decimal(s.0 as nat), dash);
        lemma_to_bytes_add(decimal(s.0 as nat) + dash, decimal(s.1 as nat));
        assert(to_bytes(dash) =~= seq![45u8]);
        assert(t =~= d0 + seq![45u8] + d1);
        lemma_split_single(d0, 45u8);
        lemma_split_append(d0, 45u8, d1);
        assert(split(t, 45u8) =~= seq![d0, d1]);
        assert(is_ascii_chars(span_text(s))) by {
            let a = decimal(s.0 as nat);
            let b = decimal(s.1 as nat);
            assert forall|i: int| 0 <= i < span_text(s).len() implies '\0' <= #[trigger] span_text(
                s,
            )[i] <= '\u{7f}' by {
                if i < a.len() {
                    assert(span_text(s)[i] == a[i]);
                } else if i > a.len() {
                    assert(span_text(s)[i] == b[i - a.len() - 1]);
                }
            }
        }
        assert forall|j: int| 0 <= j < t.len() implies t[j] != 44u8 by {
            if j < d0.len() {
                assert(t[j] == d0[j]);
            } else if j > d0.len() {
                assert(t[j] == d1[j - d0.len() - 1]);
            }
        }
    }
}

/// The text of the spans is ASCII, and its comma-separated pieces are the
/// texts of the spans, in order.
proof fn lemma_spans_split(r: Seq<(u16, u16)>)
    requires
        r.len() >= 1,
        forall|k: int| 0 <= k < r.len() ==> 1 <= (#[trigger] r[k]).0 <= r[k].1,
    ensures
        is_ascii_chars(spans_text(r)),
        split(to_bytes(spans_text(r)), 44u8).len() == r.len(),
        forall|k: int|
            0 <= k < r.len() ==> #[trigger] split(to_bytes(spans_text(r)), 44u8)[k] == to_bytes(
                span_text(r[k]),
            ),
    decreases r.len(),
{
    let last = r.last();
    assert(1 <= last.0 <= last.1);
    lemma_span_reads(last);
    if r.len() == 1 {
        lemma_split_single(to_bytes(span_text(r[0])), 44u8);
    } else {
        let front = r.drop_last();
        assert forall|k: int| 0 <= k < front.len() implies 1 <= (#[trigger] front[k]).0
            <= front[k].1 by {
            assert(front[k] == r[k]);
        }
        lemma_spans_split(front);
        let a = spans_text(front);
        let comma = seq![','];
        let b = span_text(last);
        assert(spans_text(r) == a + comma + b);
        lemma_to_bytes_add(a, comma);
        lemma_to_bytes_add(a + comma, b);
        assert(to_bytes(comma) =~= seq![44u8]);
        assert(to_bytes(spans_text(r)) =~= to_bytes(a) + seq![44u8] + to_bytes(b));
        lemma_split_append(to_bytes(a), 44u8, to_bytes(b));
        assert forall|k: int| 0 <= k < r.len() implies #[trigger] split(
            to_bytes(spans_text(r)),
            44u8,
        )[k] == to_bytes(span_text(r[k])) by {
            if k < front.len() {
                assert(front[k] == r[k]);
            }
        }
        assert(is_ascii_chars(spans_text(r))) by {
            assert forall|i: int| 0 <= i < spans_text(r).len() implies '\0' <= #[trigger] spans_text(
                r,
            )[i] <= '\u{7f}' by {
                if i < a.len() {
                    assert(spans_text(r)[i] == a[i]);
                } else if i > a.len() {
                    assert(spans_text(r)[i] == b[i - a.len() - 1]);
                }
            }
        }
    }
}

/// The bytes of "p accept " followed by the text of some spans.
proof fn lemma_line_bytes(t: Seq<char>)
    requires
        is_ascii_chars(t),
    ensures
        encode_utf8(accept_prefix() + t) =~= seq![112u8, 32u8] + accept_bytes() + seq![32u8]
            + to_bytes(t),
{
    let line = accept_prefix() + t;
    assert(is_ascii_chars(line)) by {
        assert forall|i: int| 0 <= i < line.len() implies '\0' <= #[trigger] line[i] <= '\u{7f}' by {
            if i >= 9 {
                assert(line[i] == t[i - 9]);
            }
        }
    }
    is_ascii_chars_encode_utf8(line);
    let want = seq![112u8, 32u8] + accept_bytes() + seq![32u8] + to_bytes(t);
    assert forall|i: int| 0 <= i < line.len() implies encode_utf8(line)[i] == want[i] by {
        assert(line[i] as u8 == encode_utf8(line)[i]);
        if i >= 9 {
            assert(line[i] == t[i - 9]);
        }
    }
}

/// A policy that accepts some port and not port 0, written as "p accept "
/// followed by the text of its spans (what `Policy::to_string` writes), reads
/// back as the same policy.
pub proof fn lemma_read_back(v: Seq<bool>, r: Seq<(u16, u16)>)
    requires
        v.len() == N_PORTS,
        !v[0],
        count_true(v) > 0,
        is_spans(v, r),
    ensures
        spec_read_line(encode_utf8(accept_prefix() + spans_text(r))) == Some(v),
{
    lemma_count_zero_iff(v);
    let p0 = choose|p: int| 0 <= p < v.len() && v[p];
    assert(1 <= p0 < N_PORTS && v[p0]);
    assert(r.len() >= 1);
    lemma_spans_split(r);
    let t = to_bytes(spans_text(r));
    lemma_line_bytes(spans_text(r));
    let b = encode_utf8(accept_prefix() + spans_text(r));
    let rest = b.skip(2);
    assert(rest =~= accept_bytes() + seq![32u8] + t);
    lemma_first_index_is(rest, 32u8, 6);
    assert(rest.take(6) =~= accept_bytes());
    assert(rest.skip(7) =~= t);
    let items = split(t, 44u8);
    assert(spec_line_header(b) == Some((true, items)));
    assert forall|k: int| 0 <= k < items.len() implies item_ok(#[trigger] items[k]) by {
        lemma_span_reads(r[k]);
    }
    assert(line_ok(b));
    let w = spec_line_policy(true, items);
    assert forall|i: int| 0 <= i < N_PORTS implies w[i] == v[i] by {
        if covered(items, i) {
            let k = choose|k: int|
                0 <= k < items.len() && match #[trigger] item_bounds(items[k]) {
                    Some((lo, hi)) => (if lo < 1 {
                        1
                    } else {
                        lo
                    }) <= i <= hi,
                    None => false,
                };
            lemma_span_reads(r[k]);
            assert(in_span(r, k, i));
        }
        if v[i] {
            assert(i != 0);
            let k = choose|k: int| 0 <= k < r.len() && in_span(r, k, i);
            lemma_span_reads(r[k]);
            assert(item_bounds(items[k]) == Some((r[k].0 as int, r[k].1 as int)));
            assert(covered(items, i));
        }
    }
    assert(w =~= v);
}

} // verus!
