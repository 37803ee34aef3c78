//! Reading exit policies from the "p accept ..." / "p reject ..." lines of a
//! microdescriptor file. The reading is done on the line's UTF-8 bytes; every
//! separator is an ASCII byte, so this is the same as reading its characters.

use vstd::prelude::*;
use crate::policy::{Policy, N_PORTS, policy_views, all_wf};
use vstd::utf8::encode_utf8;
use vstd::string::StringSliceAdditionalSpecFns;

verus! {

/// The index of the first `c` in `s`, or `s.len()` when there is none.
pub open spec fn first_index(s: Seq<u8>, c: u8) -> int
    decreases s.len(),
{
    if s.len() == 0 {
        0
    } else if s[0] == c {
        0
    } else {
        1 + first_index(s.drop_first(), c)
    }
}

pub proof fn lemma_first_index(s: Seq<u8>, c: u8)
    ensures
        0 <= first_index(s, c) <= s.len(),
        forall|j: int| 0 <= j < first_index(s, c) ==> s[j] != c,
        first_index(s, c) < s.len() ==> s[first_index(s, c)] == c,
    decreases s.len(),
{
    if s.len() > 0 && s[0] != c {
        lemma_first_index(s.drop_first(), c);
        assert forall|j: int| 0 <= j < first_index(s, c) implies s[j] != c by {
            if j > 0 {
                assert(s[j] == s.drop_first()[j - 1]);
            }
        }
    }
}

/// The first index is the one position that ends a run of bytes other than `c`
/// with a `c` or with the end of `s`.
pub proof fn lemma_first_index_is(s: Seq<u8>, c: u8, k: int)
    requires
        0 <= k <= s.len(),
        forall|j: int| 0 <= j < k ==> s[j] != c,
        k < s.len() ==> s[k] == c,
    ensures
        first_index(s, c) == k,
{
    lemma_first_index(s, c);
    let f = first_index(s, c);
    if f < k {
        assert(s[f] != c);
    } else if k < f {
        assert(s[k] != c);
    }
}

/// The pieces of `s` between the bytes `c`, as `str::split` gives them: there
/// is always at least one piece, and `k` separators give `k + 1` pieces.
pub open spec fn split(s: Seq<u8>, c: u8) -> Seq<Seq<u8>>
    decreases s.len(),
{
    let k = first_index(s, c);
    if k >= s.len() {
        seq![s]
    } else {
        proof {
            lemma_first_index(s, c);
        }
        seq![s.take(k)] + split(s.skip(k + 1), c)
    }
}

pub proof fn lemma_split_len(s: Seq<u8>, c: u8)
    ensures
        split(s, c).len() >= 1,
    decreases s.len(),
{
    lemma_first_index(s, c);
    let k = first_index(s, c);
    if k < s.len() {
        lemma_split_len(s.skip(k + 1), c);
    }
}

/// The bytes of "accept".
pub open spec fn accept_bytes() -> Seq<u8> {
    seq![97u8, 99u8, 99u8, 101u8, 112u8, 116u8]
}

/// The bytes of "reject".
pub open spec fn reject_bytes() -> Seq<u8> {
    seq![114u8, 101u8, 106u8, 101u8, 99u8, 116u8]
}

/// Every byte is an ASCII digit.
pub open spec fn is_digits(s: Seq<u8>) -> bool {
    forall|j: int| 0 <= j < s.len() ==> 48 <= #[trigger] s[j] <= 57
}

/// The decimal value of a string of digits.
pub open spec fn digits_value(s: Seq<u8>) -> int
    decreases s.len(),
{
    if s.len() == 0 {
        0
    } else {
        digits_value(s.drop_last()) * 10 + (s.last() - 48)
    }
}

/// What `str::parse::<u16>` gives for `s`: an optional `+`, then at least one
/// decimal digit, with a value that fits in 16 bits.
pub open spec fn spec_parse_u16(s: Seq<u8>) -> Option<int> {
    let d = if s.len() > 0 && s[0] == 43u8 {
        s.drop_first()
    } else {
        s
    };
    if d.len() > 0 && is_digits(d) && digits_value(d) <= 65535 {
        Some(digits_value(d))
    } else {
        None
    }
}

/// The ports named by one item of a policy line ("a" or "a-b"); `None` for an
/// item with more than one `-`, which is passed over, or one whose numbers do
/// not parse.
pub open spec fn item_bounds(item: Seq<u8>) -> Option<(int, int)> {
    let parts = split(item, 45u8);
    if parts.len() == 1 {
        match spec_parse_u16(parts[0]) {
            Some(v) => Some((v, v)),
            None => None,
        }
    } else if parts.len() == 2 {
        match (spec_parse_u16(parts[0]), spec_parse_u16(parts[1])) {
            (Some(a), Some(b)) => Some((a, b)),
            _ => None,
        }
    } else {
        None
    }
}

/// An item is read without failure: it is passed over, or its numbers parse.
pub open spec fn item_ok(item: Seq<u8>) -> bool {
    split(item, 45u8).len() > 2 || item_bounds(item) is Some
}

/// Port `i` lies in the range of some item; ranges are clipped so that they
/// start at port 1.
pub open spec fn covered(items: Seq<Seq<u8>>, i: int) -> bool {
    exists|k: int|
        0 <= k < items.len() && match #[trigger] item_bounds(items[k]) {
            Some((lo, hi)) => (if lo < 1 { 1 } else { lo }) <= i <= hi,
            None => false,
        }
}

/// The header of a policy line: whether it accepts, and its items; `None`
/// when the line is no policy line.
pub open spec fn spec_line_header(b: Seq<u8>) -> Option<(bool, Seq<Seq<u8>>)> {
    if b.len() < 2 || b[0] != 112u8 || b[1] != 32u8 {
        None
    } else {
        let rest = b.skip(2);
        let sp = first_index(rest, 32u8);
        if sp >= rest.len() {
            None
        } else if rest.take(sp) == accept_bytes() {
            Some((true, split(rest.skip(sp + 1), 44u8)))
        } else if rest.take(sp) == reject_bytes() {
            Some((false, split(rest.skip(sp + 1), 44u8)))
        } else {
            None
        }
    }
}

/// The line is read without failure: it is no policy line, or each of its
/// items is read without failure.
pub open spec fn line_ok(b: Seq<u8>) -> bool {
    match spec_line_header(b) {
        Some((_, items)) => forall|k: int| 0 <= k < items.len() ==> item_ok(#[trigger] items[k]),
        None => true,
    }
}

/// The ports that a policy line accepts: those in some item's range for an
/// "accept" line, those in none for a "reject" line.
pub open spec fn spec_line_policy(accept: bool, items: Seq<Seq<u8>>) -> Seq<bool> {
    Seq::new(N_PORTS as nat, |i: int| if covered(items, i) { accept } else { !accept })
}

/// What reading a line gives: the policy of a well-formed policy line, and
/// `None` for any other line.
pub open spec fn spec_read_line(b: Seq<u8>) -> Option<Seq<bool>> {
    match spec_line_header(b) {
        Some((accept, items)) => if line_ok(b) {
            Some(spec_line_policy(accept, items))
        } else {
            None
        },
        None => None,
    }
}

/// The index of the first `c` in `b[start..end]`, as a position in `b`.
fn find_byte(b: &[u8], start: usize, end: usize, c: u8) -> (r: usize)
    requires
        start <= end <= b@.len(),
    ensures
        start <= r <= end,
        r - start == first_index(b@.subrange(start as int, end as int), c),
{
    let mut pos = start;
    while pos < end && b[pos] != c
        invariant
            start <= pos <= end,
            end <= b@.len(),
            forall|j: int| start <= j < pos ==> b@[j] != c,
        decreases end - pos,
    {
        pos = pos + 1;
    }
    proof {
        lemma_first_index_is(b@.subrange(start as int, end as int), c, pos - start);
    }
    pos
}

proof fn lemma_digits_prefix(s: Seq<u8>, k: int)
    requires
        0 <= k < s.len(),
    ensures
        digits_value(s.take(k + 1)) == digits_value(s.take(k)) * 10 + (s[k] - 48),
{
    assert(s.take(k + 1).drop_last() =~= s.take(k));
}

proof fn lemma_digits_mono(s: Seq<u8>, k: int)
    requires
        0 <= k <= s.len(),
        is_digits(s),
    ensures
        digits_value(s.take(k)) <= digits_value(s),
    decreases s.len() - k,
{
    if k < s.len() {
        lemma_digits_prefix(s, k);
        assert(s.take(k + 1)[k] == s[k]);
        assert(digits_value(s.take(k)) >= 0) by {
            lemma_digits_nonneg(s.take(k));
        }
        lemma_digits_mono(s, k + 1);
    } else {
        assert(s.take(k) =~= s);
    }
}

proof fn lemma_digits_nonneg(s: Seq<u8>)
    requires
        is_digits(s),
    ensures
        digits_value(s) >= 0,
    decreases s.len(),
{
    if s.len() > 0 {
        assert(is_digits(s.drop_last())) by {
            assert forall|j: int| 0 <= j < s.len() - 1 implies 48 <= #[trigger] s.drop_last()[j] <= 57 by {
                assert(s.drop_last()[j] == s[j]);
            }
        }
        lemma_digits_nonneg(s.drop_last());
        assert(48 <= s[s.len() - 1] <= 57);
    }
}

/// Parse `b[start..end]` as `str::parse::<u16>` does.
fn parse_u16(b: &[u8], start: usize, end: usize) -> (r: Option<u16>)
    requires
        start <= end <= b@.len(),
    ensures
        match spec_parse_u16(b@.subrange(start as int, end as int)) {
            Some(v) => 0 <= v <= 65535 && r == Some(v as u16),
            None => r is None,
        },
{
    let ghost s = b@.subrange(start as int, end as int);
    let mut pos = start;
    if pos < end && b[pos] == 43u8 {
        pos = pos + 1;
    }
    let ghost d = b@.subrange(pos as int, end as int);
    proof {
        if s.len() > 0 && s[0] == 43u8 {
            assert(d =~= s.drop_first());
        } else {
            assert(d =~= s);
        }
    }
    if pos >= end {
        return None;
    }
    let mut value: u32 = 0;
    let mut k = pos;
    proof {
        assert(d.take(0) =~= Seq::<u8>::empty());
    }
    while k < end
        invariant
            pos <= k <= end,
            end <= b@.len(),
            d == b@.subrange(pos as int, end as int),
            s == b@.subrange(start as int, end as int),
            spec_parse_u16(s) == (if d.len() > 0 && is_digits(d) && digits_value(d) <= 65535 {
                Some(digits_value(d))
            } else {
                None
            }),
            forall|j: int| pos <= j < k ==> 48 <= #[trigger] b@[j] <= 57,
            value == digits_value(d.take(k - pos)),
            value <= 65535,
        decreases end - k,
    {
        let c = b[k];
        if c < 48u8 || c > 57u8 {
            proof {
                assert(!(48 <= d[k - pos] <= 57));
            }
            return None;
        }
        proof {
            lemma_digits_prefix(d, k - pos);
        }
        value = value * 10 + (c - 48u8) as u32;
        if value > 65535 {
            proof {
                assert(d.take(k - pos + 1) =~= d.take(k + 1 - pos));
                if is_digits(d) {
                    lemma_digits_mono(d, k + 1 - pos);
                }
            }
            return None;
        }
        k = k + 1;
    }
    proof {
        assert(d.take(end - pos) =~= d);
        assert(is_digits(d)) by {
            assert forall|j: int| 0 <= j < d.len() implies 48 <= #[trigger] d[j] <= 57 by {
                assert(d[j] == b@[pos + j]);
            }
        }
        lemma_digits_nonneg(d);
    }
    Some(value as u16)
}

/// The first port of an item's range once it is clipped to start at port 1.
pub open spec fn clip_lo(lo: int) -> int {
    if lo < 1 {
        1
    } else {
        lo
    }
}

/// A policy after one item of a line has been read into it.
pub open spec fn item_apply(pol: Seq<bool>, item: Seq<u8>, val: bool) -> Seq<bool> {
    match item_bounds(item) {
        Some((lo, hi)) => Seq::new(
            N_PORTS as nat,
            |i: int|
                if clip_lo(lo) <= i <= hi {
                    val
                } else {
                    pol[i]
                },
        ),
        None => pol,
    }
}

/// Reading one more item into the policy of a line.
proof fn lemma_line_policy_push(accept: bool, done: Seq<Seq<u8>>, item: Seq<u8>)
    ensures
        item_apply(spec_line_policy(accept, done), item, accept) =~= spec_line_policy(
            accept,
            done.push(item),
        ),
{
    let all = done.push(item);
    let l = item_apply(spec_line_policy(accept, done), item, accept);
    let r = spec_line_policy(accept, all);
    assert forall|i: int| 0 <= i < N_PORTS implies l[i] == r[i] by {
        if covered(done, i) {
            let k = choose|k: int|
                0 <= k < done.len() && match #[trigger] item_bounds(done[k]) {
                    Some((lo, hi)) => clip_lo(lo) <= i <= hi,
                    None => false,
                };
            assert(all[k] == done[k]);
            assert(covered(all, i));
        }
        match item_bounds(item) {
            Some((lo, hi)) => {
                if clip_lo(lo) <= i <= hi {
                    assert(all[done.len() as int] == item);
                    assert(covered(all, i));
                }
            },
            None => {},
        }
        if covered(all, i) {
            let k = choose|k: int|
                0 <= k < all.len() && match #[trigger] item_bounds(all[k]) {
                    Some((lo, hi)) => clip_lo(lo) <= i <= hi,
                    None => false,
                };
            if k < done.len() {
                assert(all[k] == done[k]);
                assert(covered(done, i));
            }
        }
    }
}

/// Helper: Parse a single 'a-b' or 'a' range, the item `b[start..end]`.
fn set_item_in_policy(policy: &mut Policy, b: &[u8], start: usize, end: usize, val: bool)
    requires
        old(policy).wf(),
        start <= end <= b@.len(),
        item_ok(b@.subrange(start as int, end as int)),
    ensures
        final(policy).wf(),
        final(policy)@ == item_apply(old(policy)@, b@.subrange(start as int, end as int), val),
{
    let ghost item = b@.subrange(start as int, end as int);
    let d1 = find_byte(b, start, end, 45u8);
    proof {
        lemma_first_index(item, 45u8);
    }
    let (s_lo, e_lo, s_hi, e_hi) = if d1 == end {
        proof {
            assert(split(item, 45u8) =~= seq![item]);
        }
        (start, end, start, end)
    } else {
        let d2 = find_byte(b, d1 + 1, end, 45u8);
        let ghost rest = b@.subrange(d1 + 1, end as int);
        proof {
            assert(item.skip(d1 - start + 1) =~= rest);
            assert(item.take(d1 - start) =~= b@.subrange(start as int, d1 as int));
            lemma_first_index(rest, 45u8);
        }
        if d2 == end {
            proof {
                assert(split(rest, 45u8) =~= seq![rest]);
                assert(split(item, 45u8) =~= seq![b@.subrange(start as int, d1 as int), rest]);
            }
            (start, d1, d1 + 1, end)
        } else {
            proof {
                let k2 = d2 - (d1 + 1);
                lemma_split_len(rest.skip(k2 + 1), 45u8);
                assert(split(rest, 45u8).len() >= 2);
                assert(split(item, 45u8).len() >= 3);
            }
            return;
        }
    };
    let lo = match parse_u16(b, s_lo, e_lo) {
        Some(v) => v,
        None => {
            return;
        },
    };
    let hi = match parse_u16(b, s_hi, e_hi) {
        Some(v) => v,
        None => {
            return;
        },
    };
    policy.set_range(lo, hi, val);
    proof {
        assert(policy@ =~= item_apply(old(policy)@, item, val));
    }
}

/// If "line" is well-formed "p accept" or "p reject" line, parse it into a
/// Policy. Otherwise, return None.
pub fn read_policy_from_line(line: &str) -> (r: Option<Policy>)
    ensures
        match spec_read_line(line.spec_bytes()) {
            Some(v) => r matches Some(p) && p.wf() && p@ == v,
            None => r is None,
        },
{
    if !check_line(line) {
        return None;
    }
    let b = line.as_bytes();
    let len = b.len();
    if len < 2 || b[0] != 112u8 || b[1] != 32u8 {
        return None;
    }
    let ghost rest = b@.skip(2);
    let sp = find_byte(b, 2, len, 32u8);
    proof {
        assert(rest =~= b@.subrange(2, len as int));
        lemma_first_index(rest, 32u8);
    }
    if sp == len {
        return None;
    }
    let ghost kwd = rest.take(sp - 2);
    proof {
        assert(kwd =~= b@.subrange(2, sp as int));
    }
    let is_accept = if sp == 8 && b[2] == 97u8 && b[3] == 99u8 && b[4] == 99u8 && b[5] == 101u8
        && b[6] == 112u8 && b[7] == 116u8 {
        proof {
            assert(kwd =~= accept_bytes());
        }
        true
    } else if sp == 8 && b[2] == 114u8 && b[3] == 101u8 && b[4] == 106u8 && b[5] == 101u8 && b[6]
        == 99u8 && b[7] == 116u8 {
        proof {
            assert(kwd =~= reject_bytes());
            assert(kwd[0] != accept_bytes()[0]);
        }
        false
    } else {
        proof {
            if kwd == accept_bytes() {
                assert(kwd.len() == 6);
                assert(kwd[0] == b@[2] && kwd[1] == b@[3] && kwd[2] == b@[4] && kwd[3] == b@[5]
                    && kwd[4] == b@[6] && kwd[5] == b@[7]);
            }
            if kwd == reject_bytes() {
                assert(kwd.len() == 6);
                assert(kwd[0] == b@[2] && kwd[1] == b@[3] && kwd[2] == b@[4] && kwd[3] == b@[5]
                    && kwd[4] == b@[6] && kwd[5] == b@[7]);
            }
        }
        return None;
    };
    let ghost all = split(rest.skip(sp - 2 + 1), 44u8);
    proof {
        assert(rest.skip(sp - 2 + 1) =~= b@.subrange(sp + 1, len as int));
        assert(spec_line_header(b@) == Some((is_accept, all)));
    }
    let mut result = Policy::new(!is_accept);
    let mut pos = sp + 1;
    let ghost mut done: Seq<Seq<u8>> = Seq::empty();
    proof {
        assert(all =~= done + split(b@.subrange(pos as int, len as int), 44u8));
        assert(result@ =~= spec_line_policy(is_accept, done));
    }
    loop
        invariant_except_break
            sp + 1 <= pos <= len,
            all == done + split(b@.subrange(pos as int, len as int), 44u8),
            result@ == spec_line_policy(is_accept, done),
        invariant
            len == b@.len(),
            forall|k: int| 0 <= k < all.len() ==> item_ok(#[trigger] all[k]),
            result.wf(),
        ensures
            result.wf(),
            result@ == spec_line_policy(is_accept, all),
        decreases len - pos,
    {
        let e = find_byte(b, pos, len, 44u8);
        let ghost tail = b@.subrange(pos as int, len as int);
        let ghost item = b@.subrange(pos as int, e as int);
        proof {
            lemma_first_index(tail, 44u8);
            assert(tail.take(e - pos) =~= item);
            assert(split(tail, 44u8)[0] == item);
            assert(all[done.len() as int] == item);
        }
        set_item_in_policy(&mut result, b, pos, e, is_accept);
        proof {
            lemma_line_policy_push(is_accept, done, item);
            if e < len {
                assert(tail.skip(e - pos + 1) =~= b@.subrange(e + 1, len as int));
                assert(split(tail, 44u8) =~= seq![item] + split(
                    b@.subrange(e + 1, len as int),
                    44u8,
                ));
                assert(all =~= done.push(item) + split(b@.subrange(e + 1, len as int), 44u8));
            } else {
                assert(split(tail, 44u8) =~= seq![item]);
                assert(all =~= done.push(item));
            }
            done = done.push(item);
        }
        if e == len {
            break;
        }
        pos = e + 1;
    }
    Some(result)
}

/// The policies that a sequence of lines gives, in order; lines that are no
/// well-formed policy lines give none.
pub open spec fn spec_read_lines(ls: Seq<Seq<u8>>) -> Seq<Seq<bool>>
    decreases ls.len(),
{
    if ls.len() == 0 {
        Seq::empty()
    } else {
        spec_read_lines(ls.drop_last()) + match spec_read_line(ls.last()) {
            Some(v) => seq![v],
            None => Seq::empty(),
        }
    }
}

/// The policies that lines give are those of the policy lines, one for each
/// and in order: the indices returned pick, in increasing order, exactly the
/// lines that read as a policy, and entry `k` is the policy of the line that
/// index `k` picks.
pub proof fn lemma_read_lines_picks(ls: Seq<Seq<u8>>) -> (idx: Seq<int>)
    ensures
        idx.len() == spec_read_lines(ls).len(),
        forall|k: int|
            0 <= k < idx.len() ==> 0 <= #[trigger] idx[k] < ls.len() && spec_read_line(ls[idx[k]])
                == Some(spec_read_lines(ls)[k]),
        forall|k1: int, k2: int| 0 <= k1 < k2 < idx.len() ==> #[trigger] idx[k1] < #[trigger] idx[k2],
        forall|l: int|
            0 <= l < ls.len() && #[trigger] spec_read_line(ls[l]) is Some ==> exists|k: int|
                0 <= k < idx.len() && #[trigger] idx[k] == l,
    decreases ls.len(),
{
    if ls.len() == 0 {
        Seq::empty()
    } else {
        let front = ls.drop_last();
        let prev = lemma_read_lines_picks(front);
        let last = ls.len() - 1;
        assert forall|l: int| 0 <= l < last implies ls[l] == front[l] by {}
        match spec_read_line(ls.last()) {
            Some(v) => {
                let idx = prev.push(last);
                assert(spec_read_lines(ls) == spec_read_lines(front) + seq![v]);
                assert forall|l: int|
                    0 <= l < ls.len() && #[trigger] spec_read_line(ls[l]) is Some implies exists|k: int|
                    0 <= k < idx.len() && #[trigger] idx[k] == l by {
                    if l < last {
                        assert(spec_read_line(front[l]) is Some);
                        let k = choose|k: int| 0 <= k < prev.len() && #[trigger] prev[k] == l;
                        assert(idx[k] == prev[k]);
                    } else {
                        assert(idx[prev.len() as int] == l);
                    }
                }
                assert forall|k: int| 0 <= k < idx.len() implies 0 <= #[trigger] idx[k] < ls.len()
                    && spec_read_line(ls[idx[k]]) == Some(spec_read_lines(ls)[k]) by {
                    if k < prev.len() {
                        assert(idx[k] == prev[k]);
                        assert(spec_read_lines(ls)[k] == spec_read_lines(front)[k]);
                    }
                }
                assert forall|k1: int, k2: int| 0 <= k1 < k2 < idx.len() implies #[trigger] idx[k1]
                    < #[trigger] idx[k2] by {
                    assert(idx[k1] == prev[k1]);
                    if k2 < prev.len() {
                        assert(idx[k2] == prev[k2]);
                    }
                }
                idx
            },
            None => {
                assert(spec_read_lines(ls) =~= spec_read_lines(front));
                assert forall|l: int|
                    0 <= l < ls.len() && #[trigger] spec_read_line(ls[l]) is Some implies exists|k: int|
                    0 <= k < prev.len() && #[trigger] prev[k] == l by {
                    assert(l < last);
                    assert(spec_read_line(front[l]) is Some);
                }
                prev
            },
        }
    }
}

/// The UTF-8 bytes of each line.
pub open spec fn line_bytes(lines: Seq<String>) -> Seq<Seq<u8>> {
    lines.map_values(|l: String| encode_utf8(l@))
}

/// Fetch all the policies from the lines of a cached-microdescs* file.
pub fn read_policies(lines: &Vec<String>) -> (r: Vec<Policy>)
    ensures
        all_wf(r@),
        policy_views(r@) == spec_read_lines(line_bytes(lines@)),
        exists|idx: Seq<int>|
            #![trigger idx.len()]
            {
                &&& idx.len() == r@.len()
                &&& forall|k: int|
                    0 <= k < idx.len() ==> 0 <= #[trigger] idx[k] < lines@.len() && spec_read_line(
                        line_bytes(lines@)[idx[k]],
                    ) == Some(r@[k]@)
                &&& forall|k1: int, k2: int|
                    0 <= k1 < k2 < idx.len() ==> #[trigger] idx[k1] < #[trigger] idx[k2]
                &&& forall|l: int|
                    0 <= l < lines@.len() && #[trigger] spec_read_line(line_bytes(lines@)[l]) is Some
                        ==> exists|k: int| 0 <= k < idx.len() && #[trigger] idx[k] == l
            },
{
    let mut policies: Vec<Policy> = Vec::new();
    let mut k: usize = 0;
    let ghost ls = line_bytes(lines@);
    proof {
        assert(ls.take(0) =~= Seq::<Seq<u8>>::empty());
        assert(policy_views(policies@) =~= spec_read_lines(ls.take(0)));
    }
    while k < lines.len()
        invariant
            k <= lines@.len(),
            ls == line_bytes(lines@),
            all_wf(policies@),
            policy_views(policies@) == spec_read_lines(ls.take(k as int)),
        decreases lines@.len() - k,
    {
        let line: &str = lines[k].as_str();
        proof {
            assert(ls[k as int] == line.spec_bytes());
            assert(ls.take(k + 1).drop_last() =~= ls.take(k as int));
        }
        let ghost before = policies@;
        match read_policy_from_line(line) {
            Some(p) => {
                policies.push(p);
                proof {
                    assert(policy_views(policies@) =~= policy_views(before).push(p@));
                }
            },
            None => {},
        }
        proof {
            assert(policy_views(policies@) =~= spec_read_lines(ls.take(k + 1)));
        }
        k = k + 1;
    }
    proof {
        assert(ls.take(lines@.len() as int) =~= ls);
        let idx = lemma_read_lines_picks(ls);
        assert forall|k: int| 0 <= k < idx.len() implies 0 <= #[trigger] idx[k] < lines@.len()
            && spec_read_line(line_bytes(lines@)[idx[k]]) == Some(policies@[k]@) by {
            assert(policy_views(policies@)[k] == policies@[k]@);
        }
        assert(idx.len() == policies@.len());
    }
    policies
}

/// Whether reading `b[start..end]` as an item succeeds.
fn item_is_ok(b: &[u8], start: usize, end: usize) -> (r: bool)
    requires
        start <= end <= b@.len(),
    ensures
        r == item_ok(b@.subrange(start as int, end as int)),
{
    let ghost item = b@.subrange(start as int, end as int);
    let d1 = find_byte(b, start, end, 45u8);
    proof {
        lemma_first_index(item, 45u8);
    }
    if d1 == end {
        proof {
            assert(split(item, 45u8) =~= seq![item]);
        }
        parse_u16(b, start, end).is_some()
    } else {
        let d2 = find_byte(b, d1 + 1, end, 45u8);
        let ghost rest = b@.subrange(d1 + 1, end as int);
        proof {
            assert(item.skip(d1 - start + 1) =~= rest);
            assert(item.take(d1 - start) =~= b@.subrange(start as int, d1 as int));
            lemma_first_index(rest, 45u8);
        }
        if d2 == end {
            proof {
                assert(split(rest, 45u8) =~= seq![rest]);
                assert(split(item, 45u8) =~= seq![b@.subrange(start as int, d1 as int), rest]);
            }
            parse_u16(b, start, d1).is_some() && parse_u16(b, d1 + 1, end).is_some()
        } else {
            proof {
                let k2 = d2 - (d1 + 1);
                lemma_split_len(rest.skip(k2 + 1), 45u8);
                assert(split(rest, 45u8).len() >= 2);
                assert(split(item, 45u8).len() >= 3);
            }
            true
        }
    }
}

/// Whether `read_policy_from_line` reads `line` without failing: the line is
/// no policy line, or every item of it is a port or a range of ports that
/// parse (items with more than one '-' are passed over).
pub fn check_line(line: &str) -> (r: bool)
    ensures
        r == line_ok(line.spec_bytes()),
{
    let b = line.as_bytes();
    let len = b.len();
    if len < 2 || b[0] != 112u8 || b[1] != 32u8 {
        return true;
    }
    let ghost rest = b@.skip(2);
    let sp = find_byte(b, 2, len, 32u8);
    proof {
        assert(rest =~= b@.subrange(2, len as int));
        lemma_first_index(rest, 32u8);
    }
    if sp == len {
        return true;
    }
    let ghost kwd = rest.take(sp - 2);
    proof {
        assert(kwd =~= b@.subrange(2, sp as int));
    }
    let is_kwd = if sp == 8 && b[2] == 97u8 && b[3] == 99u8 && b[4] == 99u8 && b[5] == 101u8 && b[6]
        == 112u8 && b[7] == 116u8 {
        proof {
            assert(kwd =~= accept_bytes());
        }
        true
    } else if sp == 8 && b[2] == 114u8 && b[3] == 101u8 && b[4] == 106u8 && b[5] == 101u8 && b[6]
        == 99u8 && b[7] == 116u8 {
        proof {
            assert(kwd =~= reject_bytes());
        }
        true
    } else {
        proof {
            if kwd == accept_bytes() || kwd == reject_bytes() {
                assert(kwd.len() == 6);
                assert(kwd[0] == b@[2] && kwd[1] == b@[3] && kwd[2] == b@[4] && kwd[3] == b@[5]
                    && kwd[4] == b@[6] && kwd[5] == b@[7]);
            }
        }
        false
    };
    if !is_kwd {
        return true;
    }
    let ghost all = split(rest.skip(sp - 2 + 1), 44u8);
    proof {
        assert(rest.skip(sp - 2 + 1) =~= b@.subrange(sp + 1, len as int));
        assert(spec_line_header(b@) matches Some((_, items)) && items == all);
        assert(line_ok(b@) == (forall|k: int| 0 <= k < all.len() ==> item_ok(#[trigger] all[k])));
    }
    let mut pos = sp + 1;
    let ghost mut done: Seq<Seq<u8>> = Seq::empty();
    proof {
        assert(all =~= done + split(b@.subrange(pos as int, len as int), 44u8));
    }
    loop
        invariant_except_break
            sp + 1 <= pos <= len,
            all == done + split(b@.subrange(pos as int, len as int), 44u8),
        invariant
            len == b@.len(),
            b@ == line.spec_bytes(),
            line_ok(b@) == (forall|k: int| 0 <= k < all.len() ==> item_ok(#[trigger] all[k])),
            forall|k: int| 0 <= k < done.len() ==> item_ok(#[trigger] done[k]),
        ensures
            forall|k: int| 0 <= k < all.len() ==> item_ok(#[trigger] all[k]),
        decreases len - pos,
    {
        let e = find_byte(b, pos, len, 44u8);
        let ghost tail = b@.subrange(pos as int, len as int);
        let ghost item = b@.subrange(pos as int, e as int);
        proof {
            lemma_first_index(tail, 44u8);
            assert(tail.take(e - pos) =~= item);
            assert(split(tail, 44u8)[0] == item);
            assert(all[done.len() as int] == item);
        }
        if !item_is_ok(b, pos, e) {
            return false;
        }
        proof {
            if e < len {
                assert(tail.skip(e - pos + 1) =~= b@.subrange(e + 1, len as int));
                assert(split(tail, 44u8) =~= seq![item] + split(
                    b@.subrange(e + 1, len as int),
                    44u8,
                ));
                assert(all =~= done.push(item) + split(b@.subrange(e + 1, len as int), 44u8));
            } else {
                assert(split(tail, 44u8) =~= seq![item]);
                assert(all =~= done.push(item));
            }
            done = done.push(item);
        }
        if e == len {
            break;
        }
        pos = e + 1;
    }
    true
}

} // verus!
