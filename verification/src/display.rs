//! Writing a policy in human-readable form: its accepted ports 1 to 65535 as
//! comma-separated maximal ranges, "80" or "1-1024".

use vstd::prelude::*;
use vstd::string::StringExecFns;
use crate::policy::{Policy, N_PORTS};

verus! {

/// Port `p` lies in span `k`.
pub open spec fn in_span(r: Seq<(u16, u16)>, k: int, p: int) -> bool {
    r[k].0 <= p <= r[k].1
}

/// `r` lists the maximal runs of accepted ports among 1 to 65535, in
/// increasing order.
pub open spec fn is_spans(v: Seq<bool>, r: Seq<(u16, u16)>) -> bool {
    &&& forall|k: int| 0 <= k < r.len() ==> 1 <= (#[trigger] r[k]).0 <= r[k].1
    &&& forall|k: int, p: int| 0 <= k < r.len() && #[trigger] in_span(r, k, p) ==> v[p]
    &&& forall|k: int| 0 <= k < r.len() ==> (#[trigger] r[k]).0 == 1 || !v[r[k].0 - 1]
    &&& forall|k: int| 0 <= k < r.len() ==> (#[trigger] r[k]).1 == 65535 || !v[r[k].1 + 1]
    &&& forall|k1: int, k2: int|
        0 <= k1 < k2 < r.len() ==> (#[trigger] r[k1]).1 + 1 < (#[trigger] r[k2]).0
    &&& forall|p: int|
        1 <= p < N_PORTS && #[trigger] v[p] ==> exists|k: int| 0 <= k < r.len() && in_span(r, k, p)
}

/// Each span of one list of maximal runs is a span of any other.
proof fn lemma_span_found(v: Seq<bool>, r1: Seq<(u16, u16)>, r2: Seq<(u16, u16)>, k: int) -> (m: int)
    requires
        v.len() == N_PORTS,
        is_spans(v, r1),
        is_spans(v, r2),
        0 <= k < r1.len(),
    ensures
        0 <= m < r2.len(),
        r2[m] == r1[k],
{
    let lo = r1[k].0 as int;
    let hi = r1[k].1 as int;
    assert(1 <= r1[k].0 <= r1[k].1);
    assert(in_span(r1, k, lo));
    assert(v[lo]);
    let m = choose|m: int| 0 <= m < r2.len() && in_span(r2, m, lo);
    let lo2 = r2[m].0 as int;
    let hi2 = r2[m].1 as int;
    assert(1 <= r2[m].0 <= r2[m].1);
    if lo2 < lo {
        assert(in_span(r2, m, lo - 1));
        assert(v[lo - 1]);
    }
    if hi2 > hi {
        assert(in_span(r2, m, hi + 1));
        assert(v[hi + 1]);
    }
    if hi2 < hi {
        assert(in_span(r1, k, hi2 + 1));
        assert(v[hi2 + 1]);
    }
    m
}

proof fn lemma_spans_prefix(v: Seq<bool>, r1: Seq<(u16, u16)>, r2: Seq<(u16, u16)>, k: int)
    requires
        v.len() == N_PORTS,
        is_spans(v, r1),
        is_spans(v, r2),
        0 <= k < r1.len(),
        k < r2.len(),
    ensures
        forall|j: int| 0 <= j <= k ==> r1[j] == r2[j],
    decreases k,
{
    if k > 0 {
        lemma_spans_prefix(v, r1, r2, k - 1);
    }
    let m = lemma_span_found(v, r1, r2, k);
    let m2 = lemma_span_found(v, r2, r1, k);
    if m < k {
        assert(r1[m] == r2[m]);
        assert(r1[m].1 + 1 < r1[k].0);
    }
    if m2 < k {
        assert(r1[m2] == r2[m2]);
        assert(r2[m2].1 + 1 < r2[k].0);
    }
    if m > k && m2 > k {
        assert(r1[k].1 + 1 < r1[m2].0);
        assert(r2[k].1 + 1 < r2[m].0);
    }
    assert forall|j: int| 0 <= j <= k implies r1[j] == r2[j] by {
        if j < k {
        }
    }
}

/// A policy has one list of maximal runs.
pub proof fn lemma_spans_unique(v: Seq<bool>, r1: Seq<(u16, u16)>, r2: Seq<(u16, u16)>)
    requires
        v.len() == N_PORTS,
        is_spans(v, r1),
        is_spans(v, r2),
    ensures
        r1 == r2,
{
    if r1.len() > r2.len() {
        let l = r2.len() as int;
        let m = lemma_span_found(v, r1, r2, l);
        lemma_spans_prefix(v, r1, r2, m);
        assert(r1[m] == r1[l]);
        assert(r1[m].1 + 1 < r1[l].0);
    } else if r2.len() > r1.len() {
        let l = r1.len() as int;
        let m = lemma_span_found(v, r2, r1, l);
        lemma_spans_prefix(v, r2, r1, m);
        assert(r2[m] == r2[l]);
        assert(r2[m].1 + 1 < r2[l].0);
    } else if r1.len() > 0 {
        lemma_spans_prefix(v, r1, r2, r1.len() - 1);
        assert(r1 =~= r2);
    } else {
        assert(r1 =~= r2);
    }
}

/// The state of the scan after ports 1 to `q - 1`: `r` holds the runs found so
/// far, the last of which may still grow.
spec fn scan_ok(v: Seq<bool>, r: Seq<(u16, u16)>, q: int, open: bool) -> bool {
    &&& forall|k: int| 0 <= k < r.len() ==> 1 <= (#[trigger] r[k]).0 <= r[k].1 < q
    &&& forall|k: int, p: int| 0 <= k < r.len() && #[trigger] in_span(r, k, p) ==> v[p]
    &&& forall|k: int| 0 <= k < r.len() ==> (#[trigger] r[k]).0 == 1 || !v[r[k].0 - 1]
    &&& forall|k: int|
        0 <= k < r.len() && !(open && k == r.len() - 1) ==> !v[(#[trigger] r[k]).1 + 1]
    &&& forall|k1: int, k2: int|
        0 <= k1 < k2 < r.len() ==> (#[trigger] r[k1]).1 + 1 < (#[trigger] r[k2]).0
    &&& forall|p: int|
        1 <= p < q && #[trigger] v[p] ==> exists|k: int| 0 <= k < r.len() && in_span(r, k, p)
    &&& open ==> r.len() > 0 && forall|p: int| r.last().1 < p < q ==> !#[trigger] v[p]
    &&& !open ==> r.len() == 0
}

impl Policy {
    /// The maximal runs of accepted ports among 1 to 65535, in increasing
    /// order.
    pub fn spans(&self) -> (r: Vec<(u16, u16)>)
        requires
            self.wf(),
        ensures
            is_spans(self@, r@),
    {
        proof {
            self.lemma_len();
        }
        let ghost v = self@;
        let mut spans: Vec<(u16, u16)> = Vec::new();
        let mut span: Option<(u16, u16)> = None;
        let mut port: u32 = 1;
        while port < 65536
            invariant
                1 <= port <= 65536,
                self.wf(),
                v == self@,
                v.len() == N_PORTS,
                scan_ok(
                    v,
                    match span {
                        Some(s) => spans@.push(s),
                        None => spans@,
                    },
                    port as int,
                    span is Some,
                ),
            decreases 65536 - port,
        {
            let ghost before = match span {
                Some(s) => spans@.push(s),
                None => spans@,
            };
            let p = port as u16;
            if self.allows(p) {
                span = match span {
                    None => Some((p, p)),
                    Some((lo, hi)) => {
                        if hi == p - 1 {
                            Some((lo, p))
                        } else {
                            spans.push((lo, hi));
                            Some((p, p))
                        }
                    },
                };
                proof {
                    let after = spans@.push(span.unwrap());
                    assert forall|k: int, x: int|
                        0 <= k < after.len() && #[trigger] in_span(after, k, x) implies v[x] by {
                        if k < after.len() - 1 {
                            assert(after[k] == before[k]);
                            assert(in_span(before, k, x));
                        } else if x < p {
                            assert(in_span(before, before.len() - 1, x));
                        }
                    }
                    assert forall|x: int|
                        1 <= x < port + 1 && #[trigger] v[x] implies exists|k: int|
                            0 <= k < after.len() && in_span(after, k, x) by {
                        if x == port {
                            assert(in_span(after, after.len() - 1, x));
                        } else {
                            let k = choose|k: int| 0 <= k < before.len() && in_span(before, k, x);
                            if k < before.len() - 1 || after.len() > before.len() {
                                assert(after[k] == before[k]);
                                assert(in_span(after, k, x));
                            } else {
                                assert(in_span(after, k, x));
                            }
                        }
                    }
                    assert forall|k: int|
                        0 <= k < after.len() && !(k == after.len() - 1) implies !v[(
                        #[trigger] after[k]).1 + 1] by {
                        assert(after[k] == before[k]);
                    }
                    assert forall|k: int| 0 <= k < after.len() implies (#[trigger] after[k]).0 == 1
                        || !v[after[k].0 - 1] by {
                        if k < before.len() {
                            assert(after[k].0 == before[k].0);
                        } else if before.len() > 0 {
                            assert(!v[port - 1] || before.last().1 == port - 1);
                        } else {
                            if port > 1 {
                                assert(!v[port - 1]);
                            }
                        }
                    }
                    assert forall|k1: int, k2: int|
                        0 <= k1 < k2 < after.len() implies (#[trigger] after[k1]).1 + 1 < (
                        #[trigger] after[k2]).0 by {
                        if k2 < before.len() {
                            assert(after[k1] == before[k1] || after[k1].1 == before[k1].1);
                            assert(after[k2].0 == before[k2].0);
                        } else if k1 < before.len() {
                            assert(after[k1] == before[k1]);
                        }
                    }
                    assert(scan_ok(v, after, port + 1, true));
                }
            } else {
                proof {
                    assert(scan_ok(v, before, port + 1, span is Some));
                }
            }
            port = port + 1;
        }
        match span {
            Some(s) => {
                spans.push(s);
            },
            None => {},
        }
        spans
    }
}

/// The decimal digits of `n`, most significant first.
pub open spec fn decimal(n: nat) -> Seq<char>
    decreases n,
{
    if n < 10 {
        seq![(48 + n) as char]
    } else {
        decimal(n / 10).push((48 + n % 10) as char)
    }
}

/// One span as text: "80" for a single port, "1-1024" for a range.
pub open spec fn span_text(s: (u16, u16)) -> Seq<char> {
    if s.0 == s.1 {
        decimal(s.0 as nat)
    } else {
        decimal(s.0 as nat) + seq!['-'] + decimal(s.1 as nat)
    }
}

/// The spans as text, separated by commas.
pub open spec fn spans_text(r: Seq<(u16, u16)>) -> Seq<char>
    decreases r.len(),
{
    if r.len() == 0 {
        Seq::empty()
    } else if r.len() == 1 {
        span_text(r[0])
    } else {
        spans_text(r.drop_last()) + seq![','] + span_text(r.last())
    }
}

/// The text of one decimal digit.
fn digit_str(d: u16) -> (s: &'static str)
    requires
        d < 10,
    ensures
        s@ == seq![(48 + d) as char],
{
    match d {
        0 => {
            proof {
                reveal_strlit("0");
            }
            "0"
        },
        1 => {
            proof {
                reveal_strlit("1");
            }
            "1"
        },
        2 => {
            proof {
                reveal_strlit("2");
            }
            "2"
        },
        3 => {
            proof {
                reveal_strlit("3");
            }
            "3"
        },
        4 => {
            proof {
                reveal_strlit("4");
            }
            "4"
        },
        5 => {
            proof {
                reveal_strlit("5");
            }
            "5"
        },
        6 => {
            proof {
                reveal_strlit("6");
            }
            "6"
        },
        7 => {
            proof {
                reveal_strlit("7");
            }
            "7"
        },
        8 => {
            proof {
                reveal_strlit("8");
            }
            "8"
        },
        _ => {
            proof {
                reveal_strlit("9");
            }
            "9"
        },
    }
}

/// Append the decimal digits of `n`.
fn push_decimal(out: &mut String, n: u16)
    ensures
        final(out)@ == old(out)@ + decimal(n as nat),
    decreases n,
{
    if n >= 10 {
        push_decimal(out, n / 10);
    }
    out.append(digit_str(n % 10));
    proof {
        if n >= 10 {
            assert(old(out)@ + decimal((n / 10) as nat) + seq![(48 + n % 10) as char] =~= old(out)@
                + decimal(n as nat));
        } else {
            assert(old(out)@ + seq![(48 + n % 10) as char] =~= old(out)@ + decimal(n as nat));
        }
    }
}

/// Append one span as text.
fn push_span(out: &mut String, s: (u16, u16))
    ensures
        final(out)@ == old(out)@ + span_text(s),
{
    push_decimal(out, s.0);
    if s.0 != s.1 {
        proof {
            reveal_strlit("-");
        }
        out.append("-");
        push_decimal(out, s.1);
        proof {
            assert(old(out)@ + decimal(s.0 as nat) + seq!['-'] + decimal(s.1 as nat) =~= old(out)@
                + span_text(s));
        }
    }
}

impl Policy {
    /// Write a policy in a human-readable form: its accepted ports 1 to
    /// 65535 as comma-separated maximal ranges.
    pub fn to_string(&self) -> (s: String)
        requires
            self.wf(),
        ensures
            exists|r: Seq<(u16, u16)>| is_spans(self@, r) && s@ == spans_text(r),
    {
        let spans = self.spans();
        let mut out = String::new();
        let mut k: usize = 0;
        proof {
            assert(spans@.take(0) =~= Seq::<(u16, u16)>::empty());
        }
        while k < spans.len()
            invariant
                k <= spans@.len(),
                out@ == spans_text(spans@.take(k as int)),
            decreases spans@.len() - k,
        {
            let ghost before = out@;
            if k > 0 {
                proof {
                    reveal_strlit(",");
                }
                out.append(",");
            }
            push_span(&mut out, spans[k]);
            proof {
                let t = spans@.take(k + 1);
                assert(t.drop_last() =~= spans@.take(k as int));
                if k == 0 {
                    assert(out@ =~= spans_text(t));
                } else {
                    assert(out@ =~= spans_text(t));
                }
            }
            k = k + 1;
        }
        proof {
            assert(spans@.take(spans@.len() as int) =~= spans@);
        }
        out
    }
}

} // verus!
