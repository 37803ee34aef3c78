//! Merging covering sets, cheapest pair first, until few enough are left.

use vstd::prelude::*;
use crate::bits::{count_true, lemma_count_mono, lemma_count_le_len};
use crate::analysis::{
    get_portcount, weighted_count, pair_policies, pair_weights, accepting_count,
    lemma_weighted_count_ones, lemma_weighted_count_single, lemma_weighted_count_none,
};
use crate::supporters::{
    PolSupporters, count_only, seq_and, supporters_view, filled_size, spec_value, spec_cost,
    lemma_supporters_count, lemma_supporters_union,
};
use crate::policy::{Policy, N_PORTS, spec_disjoint, spec_union, spec_contains, policy_views, all_wf};
use crate::cover::{
    find_cover, cover_spec, class_views, containing, policies_sized, lemma_cover_disjoint,
    lemma_cover_covers, ClassView,
};

verus! {

/// Every set is well formed, all relay arrays have the same size, and no
/// relay count exceeds 32 bits.
pub open spec fn sets_ok(s: Seq<PolSupporters>) -> bool {
    &&& forall|i: int|
        0 <= i < s.len() ==> {
            &&& (#[trigger] s[i]).wf()
            &&& count_true(s[i].relays@) <= u32::MAX
        }
    &&& forall|i: int, j: int|
        0 <= i < s.len() && 0 <= j < s.len() ==> (#[trigger] s[i]).relays.size() == (
        #[trigger] s[j]).relays.size()
}

/// A set as a value: its ports and its relays.
pub type SetView = (Seq<bool>, Seq<bool>);

/// The values of the sets.
pub open spec fn set_views(s: Seq<PolSupporters>) -> Seq<SetView> {
    s.map_values(|x: PolSupporters| (x.ports@, x.relays@))
}

/// The cost of merging sets `i` and `j`, given as values.
pub open spec fn vcost(sv: Seq<SetView>, i: int, j: int) -> int {
    spec_cost(sv[i].0, sv[i].1, sv[j].0, sv[j].1)
}

/// The cost of merging sets `i` and `j`.
pub open spec fn pair_cost(s: Seq<PolSupporters>, i: int, j: int) -> int {
    s[i].spec_cost(&s[j])
}

/// Every cost of merging two of the sets fits in 32 bits.
pub open spec fn costs_fit(s: Seq<PolSupporters>) -> bool {
    forall|i: int, j: int|
        0 <= i < j < s.len() ==> #[trigger] pair_cost(s, i, j) <= u32::MAX
}

/// Pair `(a, b)` comes before pair `(i, j)` in the order in which the pairs
/// are examined.
pub open spec fn pair_before(a: int, b: int, i: int, j: int) -> bool {
    a < i || (a == i && b < j)
}

/// The answer of `best_pair`: the first pair, in examination order, of least
/// cost among the pairs whose cost is below `u32::MAX`; `None` when there is
/// no such pair.
pub open spec fn is_best(sv: Seq<SetView>, r: Option<(usize, usize, u32)>) -> bool {
    match r {
        Some((i, j, c)) => {
            &&& i < j < sv.len()
            &&& c == vcost(sv, i as int, j as int)
            &&& c < u32::MAX
            &&& forall|a: int, b: int|
                0 <= a < b < sv.len() ==> c <= #[trigger] vcost(sv, a, b)
            &&& forall|a: int, b: int|
                0 <= a < b < sv.len() && pair_before(a, b, i as int, j as int) ==> c
                    < #[trigger] vcost(sv, a, b)
        },
        None => forall|a: int, b: int|
            0 <= a < b < sv.len() ==> #[trigger] vcost(sv, a, b) >= u32::MAX,
    }
}

/// The answer of `best_pair` for the sets `s`.
pub open spec fn is_best_pair(s: Seq<PolSupporters>, r: Option<(usize, usize, u32)>) -> bool {
    is_best(set_views(s), r)
}

/// The best pair of a list of set values, as a function.
pub open spec fn best_pair_spec(sv: Seq<SetView>) -> Option<(usize, usize, u32)> {
    if exists|r: (usize, usize, u32)| is_best(sv, Some(r)) {
        Some(choose|r: (usize, usize, u32)| is_best(sv, Some(r)))
    } else {
        None
    }
}

/// There is one best pair: `best_pair_spec` names it.
pub proof fn lemma_best_unique(sv: Seq<SetView>, r: Option<(usize, usize, u32)>)
    requires
        is_best(sv, r),
    ensures
        r == best_pair_spec(sv),
{
    match r {
        Some(x) => {
            let y = choose|y: (usize, usize, u32)| is_best(sv, Some(y));
            assert(is_best(sv, Some(y)));
            let (i, j, c) = x;
            let (i2, j2, c2) = y;
            assert(c <= vcost(sv, i2 as int, j2 as int));
            assert(c2 <= vcost(sv, i as int, j as int));
            if pair_before(i as int, j as int, i2 as int, j2 as int) {
                assert(c2 < vcost(sv, i as int, j as int));
            } else if pair_before(i2 as int, j2 as int, i as int, j as int) {
                assert(c < vcost(sv, i2 as int, j2 as int));
            }
        },
        None => {
            if exists|y: (usize, usize, u32)| is_best(sv, Some(y)) {
                let y = choose|y: (usize, usize, u32)| is_best(sv, Some(y));
                assert(vcost(sv, y.0 as int, y.1 as int) >= u32::MAX);
            }
        },
    }
}

/// The pair of sets that is best to merge is a cheapest pair: its cost is
/// the cost of merging its two sets and lies below `u32::MAX`; no pair
/// `a < b` of the sets costs less, and every pair examined before it costs
/// more. With no pair named, every pair costs `u32::MAX` or more.
pub proof fn lemma_best_is_cheapest(s: Seq<PolSupporters>, r: Option<(usize, usize, u32)>)
    requires
        is_best_pair(s, r),
    ensures
        match r {
            Some((i, j, c)) => {
                &&& i < j < s.len()
                &&& c as int == spec_cost(
                    s[i as int].ports@,
                    s[i as int].relays@,
                    s[j as int].ports@,
                    s[j as int].relays@,
                )
                &&& c < u32::MAX
                &&& forall|a: int, b: int|
                    0 <= a < b < s.len() ==> c <= #[trigger] spec_cost(
                        s[a].ports@,
                        s[a].relays@,
                        s[b].ports@,
                        s[b].relays@,
                    )
                &&& forall|a: int, b: int|
                    0 <= a < b < s.len() && (a < i || (a == i && b < j)) ==> c
                        < #[trigger] spec_cost(s[a].ports@, s[a].relays@, s[b].ports@, s[b].relays@)
            },
            None => forall|a: int, b: int|
                0 <= a < b < s.len() ==> #[trigger] spec_cost(
                    s[a].ports@,
                    s[a].relays@,
                    s[b].ports@,
                    s[b].relays@,
                ) >= u32::MAX,
        },
{
    let sv = set_views(s);
    assert forall|a: int, b: int| 0 <= a < s.len() && 0 <= b < s.len() implies #[trigger] vcost(
        sv,
        a,
        b,
    ) == spec_cost(s[a].ports@, s[a].relays@, s[b].ports@, s[b].relays@) by {
        assert(sv[a] == (s[a].ports@, s[a].relays@));
        assert(sv[b] == (s[b].ports@, s[b].relays@));
    }
    match r {
        Some((i, j, c)) => {
            assert(vcost(sv, i as int, j as int) == c);
            assert forall|a: int, b: int| 0 <= a < b < s.len() implies c <= #[trigger] spec_cost(
                s[a].ports@,
                s[a].relays@,
                s[b].ports@,
                s[b].relays@,
            ) by {
                assert(c <= vcost(sv, a, b));
            }
            assert forall|a: int, b: int| 0 <= a < b < s.len() && (a < i || (a == i && b < j))
                implies c < #[trigger] spec_cost(
                s[a].ports@,
                s[a].relays@,
                s[b].ports@,
                s[b].relays@,
            ) by {
                assert(pair_before(a, b, i as int, j as int));
                assert(c < vcost(sv, a, b));
            }
        },
        None => {
            assert forall|a: int, b: int| 0 <= a < b < s.len() implies #[trigger] spec_cost(
                s[a].ports@,
                s[a].relays@,
                s[b].ports@,
                s[b].relays@,
            ) >= u32::MAX by {
                assert(vcost(sv, a, b) >= u32::MAX);
            }
        },
    }
}

/// Find the pair of sets whose merge costs least: the first such pair in the
/// order (0, 1), (0, 2), ..., (1, 2), ..., among those whose cost is below
/// `u32::MAX`.
pub fn best_pair(combined: &Vec<PolSupporters>) -> (r: Option<(usize, usize, u32)>)
    requires
        sets_ok(combined@),
        costs_fit(combined@),
    ensures
        is_best_pair(combined@, r),
        match r {
            Some((i, j, c)) => {
                &&& i < j < combined@.len()
                &&& c as int == pair_cost(combined@, i as int, j as int)
                &&& forall|a: int, b: int|
                    0 <= a < b < combined@.len() ==> c <= #[trigger] pair_cost(combined@, a, b)
            },
            None => forall|a: int, b: int|
                0 <= a < b < combined@.len() ==> #[trigger] pair_cost(combined@, a, b)
                    >= u32::MAX,
        },
{
    let ghost s = combined@;
    let ghost sv = set_views(s);
    let mut best_cost: u32 = u32::MAX;
    let mut best_idx: Option<(usize, usize)> = None;
    let n = combined.len();
    let mut idx1: usize = 0;
    while idx1 < n
        invariant
            n == s.len(),
            s == combined@,
            sv == set_views(s),
            sets_ok(s),
            costs_fit(s),
            idx1 <= n,
            forall|a: int, b: int|
                0 <= a < b < n && a < idx1 ==> best_cost <= #[trigger] vcost(sv, a, b),
            match best_idx {
                Some((i, j)) => {
                    &&& i < j < n
                    &&& i < idx1
                    &&& best_cost == vcost(sv, i as int, j as int)
                    &&& best_cost < u32::MAX
                    &&& forall|a: int, b: int|
                        0 <= a < b < n && pair_before(a, b, i as int, j as int) ==> best_cost
                            < #[trigger] vcost(sv, a, b)
                },
                None => best_cost == u32::MAX,
            },
        decreases n - idx1,
    {
        let mut idx2: usize = 0;
        while idx2 < n
            invariant
                n == s.len(),
                s == combined@,
                sv == set_views(s),
                sets_ok(s),
                costs_fit(s),
                idx1 < n,
                idx2 <= n,
                forall|a: int, b: int|
                    0 <= a < b < n && (a < idx1 || (a == idx1 && b < idx2)) ==> best_cost
                        <= #[trigger] vcost(sv, a, b),
                match best_idx {
                    Some((i, j)) => {
                        &&& i < j < n
                        &&& (i < idx1 || (i == idx1 && j < idx2))
                        &&& best_cost == vcost(sv, i as int, j as int)
                        &&& best_cost < u32::MAX
                        &&& forall|a: int, b: int|
                            0 <= a < b < n && pair_before(a, b, i as int, j as int) ==> best_cost
                                < #[trigger] vcost(sv, a, b)
                    },
                    None => best_cost == u32::MAX,
                },
            decreases n - idx2,
        {
            if idx1 < idx2 {
                let psup1 = &combined[idx1];
                let psup2 = &combined[idx2];
                proof {
                    assert(pair_cost(s, idx1 as int, idx2 as int) <= u32::MAX);
                    assert(sv[idx1 as int] == (psup1.ports@, psup1.relays@));
                    assert(sv[idx2 as int] == (psup2.ports@, psup2.relays@));
                    lemma_count_mono(
                        Seq::new(psup1.relays@.len(), |i: int| psup1.relays@[i] && !psup2.relays@[i]),
                        psup1.relays@,
                    );
                    lemma_count_mono(
                        Seq::new(psup2.relays@.len(), |i: int| psup2.relays@[i] && !psup1.relays@[i]),
                        psup2.relays@,
                    );
                }
                let cost = psup1.combining_cost(psup2);
                if cost < best_cost {
                    best_cost = cost;
                    best_idx = Some((idx1, idx2));
                }
            }
            idx2 = idx2 + 1;
        }
        idx1 = idx1 + 1;
    }
    let r = match best_idx {
        Some((i, j)) => Some((i, j, best_cost)),
        None => None,
    };
    proof {
        lemma_best_is_cheapest(s, r);
        match r {
            Some((i, j, c)) => {
                assert forall|a: int, b: int| 0 <= a < b < n implies c <= #[trigger] pair_cost(
                    s,
                    a,
                    b,
                ) by {
                    assert(c <= spec_cost(s[a].ports@, s[a].relays@, s[b].ports@, s[b].relays@));
                }
            },
            None => {
                assert forall|a: int, b: int| 0 <= a < b < n implies #[trigger] pair_cost(s, a, b)
                    >= u32::MAX by {
                    assert(spec_cost(s[a].ports@, s[a].relays@, s[b].ports@, s[b].relays@)
                        >= u32::MAX);
                }
            },
        }
    }
    r
}

/// The sum of the values of the sets.
pub open spec fn sum_values(s: Seq<PolSupporters>) -> int
    decreases s.len(),
{
    if s.len() == 0 {
        0
    } else {
        sum_values(s.drop_last()) + s.last().spec_value()
    }
}

proof fn lemma_value_nonneg(x: PolSupporters)
    ensures
        x.spec_value() >= 0,
{
    let a = count_true(x.ports@);
    let b = count_true(x.relays@);
    assert(a * b >= 0) by (nonlinear_arith)
        requires
            a >= 0,
            b >= 0,
    ;
}

proof fn lemma_sum_values_push(s: Seq<PolSupporters>, x: PolSupporters)
    ensures
        sum_values(s.push(x)) == sum_values(s) + x.spec_value(),
{
    assert(s.push(x).drop_last() =~= s);
}

proof fn lemma_sum_values_remove(s: Seq<PolSupporters>, i: int)
    requires
        0 <= i < s.len(),
    ensures
        sum_values(s.remove(i)) == sum_values(s) - s[i].spec_value(),
    decreases s.len(),
{
    if i == s.len() - 1 {
        assert(s.remove(i) =~= s.drop_last());
    } else {
        lemma_sum_values_remove(s.drop_last(), i);
        assert(s.remove(i).drop_last() =~= s.drop_last().remove(i));
        assert(s.remove(i).last() == s.last());
    }
}

proof fn lemma_sum_values_nonneg(s: Seq<PolSupporters>)
    ensures
        sum_values(s) >= 0,
    decreases s.len(),
{
    if s.len() > 0 {
        lemma_sum_values_nonneg(s.drop_last());
        lemma_value_nonneg(s.last());
    }
}

/// Two of the sets are worth no more than all of them.
proof fn lemma_pair_le_sum(s: Seq<PolSupporters>, i: int, j: int)
    requires
        0 <= i < j < s.len(),
    ensures
        s[i].spec_value() + s[j].spec_value() <= sum_values(s),
{
    s.remove_ensures(j);
    lemma_sum_values_remove(s, j);
    s.remove(j).remove_ensures(i);
    lemma_sum_values_remove(s.remove(j), i);
    lemma_sum_values_nonneg(s.remove(j).remove(i));
}

/// Merging two sets never costs more than their values.
proof fn lemma_cost_le_values(a: PolSupporters, b: PolSupporters)
    ensures
        a.spec_cost(&b) <= a.spec_value() + b.spec_value(),
{
    let r1 = a.relays@;
    let r2 = b.relays@;
    lemma_count_mono(Seq::new(r1.len(), |i: int| r1[i] && !r2[i]), r1);
    lemma_count_mono(Seq::new(r2.len(), |i: int| r2[i] && !r1[i]), r2);
    let x = count_only(r1, r2);
    let y = count_only(r2, r1);
    let c1 = count_true(a.ports@);
    let c2 = count_true(b.ports@);
    let k1 = count_true(r1);
    let k2 = count_true(r2);
    assert(x * c1 + y * c2 <= c1 * k1 + c2 * k2) by (nonlinear_arith)
        requires
            0 <= x <= k1,
            0 <= y <= k2,
            c1 >= 0,
            c2 >= 0,
    ;
}

/// The sets the greedy merge works on: each holds exactly the relays among
/// `pols` that support its ports, their ports are pairwise disjoint and
/// together make up ports 1 to 65535.
pub open spec fn greedy_inv(pols: Seq<Seq<bool>>, s: Seq<PolSupporters>) -> bool {
    &&& sets_ok(s)
    &&& forall|k: int|
        0 <= k < s.len() ==> {
            &&& (#[trigger] s[k]).ports@.len() == N_PORTS
            &&& s[k].relays@ == supporters_view(pols, s[k].ports@)
            &&& s[k].relays.size() == filled_size(pols.len() as int)
            &&& !s[k].ports@[0]
        }
    &&& forall|a: int, b: int|
        0 <= a < s.len() && 0 <= b < s.len() && a != b ==> spec_disjoint(
            (#[trigger] s[a]).ports@,
            (#[trigger] s[b]).ports@,
        )
    &&& forall|port: int| 1 <= port < N_PORTS ==> #[trigger] in_some_set(s, port)
}

/// Some set holds port `port`.
pub open spec fn in_some_set(s: Seq<PolSupporters>, port: int) -> bool {
    exists|k: int| 0 <= k < s.len() && #[trigger] s[k].ports@[port]
}

/// The position in `s` of entry `k` of `s` with entries `i < j` removed.
pub open spec fn index_after_removal(i: int, j: int, k: int) -> int {
    if k < i {
        k
    } else if k + 1 < j {
        k + 1
    } else {
        k + 2
    }
}

proof fn lemma_remove_two<T>(s: Seq<T>, i: int, j: int)
    requires
        0 <= i < j < s.len(),
    ensures
        s.remove(j).remove(i).len() == s.len() - 2,
        forall|k: int|
            0 <= k < s.len() - 2 ==> #[trigger] s.remove(j).remove(i)[k] == s[index_after_removal(
                i,
                j,
                k,
            )],
{
    s.remove_ensures(j);
    s.remove(j).remove_ensures(i);
}

/// Merging sets `i` and `j` into `u` keeps the invariant.
proof fn lemma_merge_keeps_inv(
    pols: Seq<Seq<bool>>,
    s: Seq<PolSupporters>,
    i: int,
    j: int,
    u: PolSupporters,
)
    requires
        greedy_inv(pols, s),
        pols.len() <= u32::MAX,
        0 <= i < j < s.len(),
        u.wf(),
        u.ports@ == spec_union(s[i].ports@, s[j].ports@),
        u.relays@ == seq_and(s[i].relays@, s[j].relays@),
        u.relays.size() == s[i].relays.size(),
    ensures
        greedy_inv(pols, s.remove(j).remove(i).push(u)),
{
    let t = s.remove(j).remove(i);
    let n = t.push(u);
    lemma_remove_two(s, i, j);
    let pi = s[i].ports@;
    let pj = s[j].ports@;
    assert(u.ports@.len() == N_PORTS);
    lemma_supporters_union(pols, pi, pj);
    lemma_supporters_count(pols, u.ports@);
    assert(sets_ok(n)) by {
        assert forall|k: int| 0 <= k < n.len() implies {
            &&& (#[trigger] n[k]).wf()
            &&& count_true(n[k].relays@) <= u32::MAX
        } by {
            if k < t.len() {
                assert(n[k] == s[index_after_removal(i, j, k)]);
            }
        }
        assert forall|a: int, b: int|
            0 <= a < n.len() && 0 <= b < n.len() implies (#[trigger] n[a]).relays.size() == (
            #[trigger] n[b]).relays.size() by {
            if a < t.len() {
                assert(n[a] == s[index_after_removal(i, j, a)]);
            }
            if b < t.len() {
                assert(n[b] == s[index_after_removal(i, j, b)]);
            }
            assert(s[i].relays.size() == s[0].relays.size());
        }
    }
    assert forall|k: int| 0 <= k < n.len() implies {
        &&& (#[trigger] n[k]).ports@.len() == N_PORTS
        &&& n[k].relays@ == supporters_view(pols, n[k].ports@)
        &&& n[k].relays.size() == filled_size(pols.len() as int)
        &&& !n[k].ports@[0]
    } by {
        if k < t.len() {
            assert(n[k] == s[index_after_removal(i, j, k)]);
        } else {
            assert(n[k] == u);
            assert(u.ports@[0] == (pi[0] || pj[0]));
        }
    }
    assert forall|a: int, b: int|
        0 <= a < n.len() && 0 <= b < n.len() && a != b implies spec_disjoint(
        (#[trigger] n[a]).ports@,
        (#[trigger] n[b]).ports@,
    ) by {
        if a < t.len() && b < t.len() {
            assert(n[a] == s[index_after_removal(i, j, a)]);
            assert(n[b] == s[index_after_removal(i, j, b)]);
        } else if a < t.len() {
            let m = index_after_removal(i, j, a);
            assert(n[a] == s[m]);
            assert(n[b] == u);
            assert(spec_disjoint(s[m].ports@, pi));
            assert(spec_disjoint(s[m].ports@, pj));
            assert forall|x: int| 0 <= x < N_PORTS implies !(#[trigger] u.ports@[x] && n[a].ports@[x]) by {
                assert(u.ports@[x] == (pi[x] || pj[x]));
                assert(!(pi[x] && s[m].ports@[x]));
                assert(!(pj[x] && s[m].ports@[x]));
            }
        } else {
            let m = index_after_removal(i, j, b);
            assert(n[b] == s[m]);
            assert(n[a] == u);
            assert(spec_disjoint(pi, s[m].ports@));
            assert(spec_disjoint(pj, s[m].ports@));
            assert forall|x: int| 0 <= x < N_PORTS implies !(#[trigger] n[b].ports@[x] && u.ports@[x]) by {
                assert(u.ports@[x] == (pi[x] || pj[x]));
                assert(!(s[m].ports@[x] && pi[x]));
                assert(!(s[m].ports@[x] && pj[x]));
            }
        }
    }
    assert forall|port: int| 1 <= port < N_PORTS implies #[trigger] in_some_set(n, port) by {
        assert(in_some_set(s, port));
        let m = choose|m: int| 0 <= m < s.len() && #[trigger] s[m].ports@[port];
        if m == i || m == j {
            assert(u.ports@[port] == (pi[port] || pj[port]));
            assert(n[n.len() - 1] == u);
            assert(n[n.len() - 1].ports@[port]);
        } else {
            let k = if m < i {
                m
            } else if m < j {
                m - 1
            } else {
                m - 2
            };
            assert(index_after_removal(i, j, k) == m);
            assert(n[k] == s[m]);
            assert(n[k].ports@[port]);
        }
    }
}

/// Every policy of the list has one entry per port.
proof fn lemma_policies_sized(policies: Seq<Policy>)
    requires
        all_wf(policies),
    ensures
        policies_sized(policy_views(policies)),
{
    assert forall|j: int| 0 <= j < policies.len() implies (#[trigger] policy_views(policies)[j]).len()
        == N_PORTS by {
        policies[j].lemma_len();
    }
}

/// The covering sets of the policies, each with the relays that support it.
pub fn covering_supporters(policies: &[Policy]) -> (r: Vec<PolSupporters>)
    requires
        all_wf(policies@),
        policies@.len() <= u32::MAX,
        policies@.len() <= usize::MAX - 63,
    ensures
        r@.len() == cover_spec(policy_views(policies@)).len(),
        forall|k: int|
            0 <= k < r@.len() ==> (#[trigger] r@[k]).ports@ == cover_spec(
                policy_views(policies@),
            )[k].0,
        greedy_inv(policy_views(policies@), r@),
{
    let ghost pols = policy_views(policies@);
    let classes = find_cover(policies);
    let ghost cs = cover_spec(pols);
    proof {
        lemma_policies_sized(policies@);
        lemma_cover_disjoint(pols);
        assert(class_views(classes@).len() == classes@.len());
    }
    let ghost cls = classes@;
    let mut sets: Vec<PolSupporters> = Vec::new();
    for item in iter: classes.into_iter()
        invariant
            iter.seq() == cls,
            class_views(cls) == cs,
            cs == cover_spec(pols),
            pols == policy_views(policies@),
            policies_sized(pols),
            all_wf(policies@),
            policies@.len() <= u32::MAX,
            policies@.len() <= usize::MAX - 63,
            forall|m: int| 0 <= m < cls.len() ==> (#[trigger] cls[m]).0.wf(),
            sets@.len() == iter.index(),
            forall|k: int|
                0 <= k < sets@.len() ==> {
                    &&& (#[trigger] sets@[k]).wf()
                    &&& sets@[k].ports@ == cs[k].0
                    &&& sets@[k].relays@ == supporters_view(pols, sets@[k].ports@)
                    &&& sets@[k].relays.size() == filled_size(pols.len() as int)
                },
    {
        let (c, _count) = item;
        let ghost idx = iter.index();
        proof {
            assert(cls[idx] == (c, _count));
            assert(class_views(cls)[idx] == (c@, _count as nat));
        }
        let ps = PolSupporters::from_port_set(c, policies);
        sets.push(ps);
    }
    proof {
        let s = sets@;
        assert forall|k: int| 0 <= k < s.len() implies {
            &&& (#[trigger] s[k]).wf()
            &&& count_true(s[k].relays@) <= u32::MAX
        } by {
            lemma_supporters_count(pols, s[k].ports@);
        }
        assert forall|k: int|
            0 <= k < s.len() implies {
            &&& (#[trigger] s[k]).ports@.len() == N_PORTS
            &&& s[k].relays@ == supporters_view(pols, s[k].ports@)
            &&& s[k].relays.size() == filled_size(pols.len() as int)
            &&& !s[k].ports@[0]
        } by {
        }
        assert forall|a: int, b: int|
            0 <= a < s.len() && 0 <= b < s.len() && a != b implies spec_disjoint(
            (#[trigger] s[a]).ports@,
            (#[trigger] s[b]).ports@,
        ) by {
            assert forall|x: int| 0 <= x < N_PORTS implies !(#[trigger] s[b].ports@[x] && s[a].ports@[x]) by {
                assert(!(cs[a].0[x] && cs[b].0[x]));
            }
        }
        assert forall|port: int| 1 <= port < N_PORTS implies #[trigger] in_some_set(s, port) by {
            lemma_cover_covers(pols, port);
            let k = choose|k: int| 0 <= k < cs.len() && #[trigger] cs[k].0[port];
            assert(s[k].ports@[port]);
        }
    }
    sets
}

/// The value of each class of a covering, summed: its ports times the
/// policies that support all of them.
pub open spec fn sum_class_values(pols: Seq<Seq<bool>>, cs: Seq<ClassView>) -> int
    decreases cs.len(),
{
    if cs.len() == 0 {
        0
    } else {
        sum_class_values(pols, cs.drop_last()) + spec_value(
            cs.last().0,
            supporters_view(pols, cs.last().0),
        )
    }
}

/// The summed value of the covering sets of the policies.
pub open spec fn cover_value(pols: Seq<Seq<bool>>) -> int {
    sum_class_values(pols, cover_spec(pols))
}

proof fn lemma_sum_values_cover(pols: Seq<Seq<bool>>, s: Seq<PolSupporters>, cs: Seq<ClassView>)
    requires
        s.len() == cs.len(),
        forall|k: int|
            0 <= k < s.len() ==> (#[trigger] s[k]).ports@ == cs[k].0 && s[k].relays@
                == supporters_view(pols, s[k].ports@),
    ensures
        sum_values(s) == sum_class_values(pols, cs),
    decreases s.len(),
{
    if s.len() > 0 {
        lemma_sum_values_cover(pols, s.drop_last(), cs.drop_last());
        assert(s.last() == s[s.len() - 1]);
    }
}

proof fn lemma_sum_values_prefix(s: Seq<PolSupporters>, k: int)
    requires
        0 <= k < s.len(),
    ensures
        sum_values(s.take(k + 1)) == sum_values(s.take(k)) + s[k].spec_value(),
        sum_values(s.take(k + 1)) <= sum_values(s),
    decreases s.len() - k,
{
    assert(s.take(k + 1).drop_last() =~= s.take(k));
    if k + 1 < s.len() {
        lemma_sum_values_prefix(s, k + 1);
        lemma_value_nonneg(s[k + 1]);
    } else {
        assert(s.take(k + 1) =~= s);
    }
}

/// A merge as a value: the number of sets left after it, its cost, and the
/// ports of the two sets merged.
pub type StepView = (nat, int, Seq<bool>, Seq<bool>);

/// The sets after merging sets `i` and `j`: the others in order, then the
/// merged set (the union of the ports, the relays of both).
pub open spec fn merge_views(sv: Seq<SetView>, i: int, j: int) -> Seq<SetView> {
    sv.remove(j).remove(i).push((spec_union(sv[i].0, sv[j].0), seq_and(sv[i].1, sv[j].1)))
}

/// The greedy merge as a function of the sets and the target: while more
/// than `target` sets are left and some pair can be merged, merge the best
/// pair. Gives the sets left and the merges made.
pub open spec fn greedy_spec(sv: Seq<SetView>, target: int) -> (Seq<SetView>, Seq<StepView>)
    decreases sv.len(),
{
    if sv.len() <= target {
        (sv, Seq::empty())
    } else {
        match best_pair_spec(sv) {
            Some((i, j, c)) => {
                if i < j < sv.len() {
                    proof {
                        sv.remove_ensures(j as int);
                        sv.remove(j as int).remove_ensures(i as int);
                    }
                    let next = merge_views(sv, i as int, j as int);
                    let rest = greedy_spec(next, target);
                    (rest.0, seq![(next.len(), c as int, sv[i as int].0, sv[j as int].0)] + rest.1)
                } else {
                    (sv, Seq::empty())
                }
            },
            None => (sv, Seq::empty()),
        }
    }
}

/// The covering sets of the policies as values, each with its supporters.
pub open spec fn initial_sets(pols: Seq<Seq<bool>>) -> Seq<SetView> {
    Seq::new(
        cover_spec(pols).len(),
        |k: int| (cover_spec(pols)[k].0, supporters_view(pols, cover_spec(pols)[k].0)),
    )
}

proof fn lemma_set_views_merge(s: Seq<PolSupporters>, i: int, j: int, u: PolSupporters)
    requires
        0 <= i < j < s.len(),
    ensures
        set_views(s.remove(j).remove(i).push(u)) =~= set_views(s).remove(j).remove(i).push(
            (u.ports@, u.relays@),
        ),
{
    lemma_remove_two(s, i, j);
    lemma_remove_two(set_views(s), i, j);
}

/// One merge of the greedy loop: the sets merged, the cost, and the number
/// of sets left afterwards.
pub struct MergeStep {
    pub remaining: usize,
    pub cost: u32,
    pub first: Policy,
    pub second: Policy,
}

/// The merges as values.
pub open spec fn step_views(steps: Seq<MergeStep>) -> Seq<StepView> {
    steps.map_values(|m: MergeStep| (m.remaining as nat, m.cost as int, m.first@, m.second@))
}

/// The costs of the merges, summed.
pub open spec fn sum_step_costs(steps: Seq<MergeStep>) -> int
    decreases steps.len(),
{
    if steps.len() == 0 {
        0
    } else {
        sum_step_costs(steps.drop_last()) + steps.last().cost
    }
}

/// What the greedy merge leaves: the merged sets, the merges made in order,
/// the summed value of the covering sets before merging, and the summed cost
/// of the merges.
pub struct GreedyMerge {
    pub combined: Vec<PolSupporters>,
    pub steps: Vec<MergeStep>,
    pub orig_value: u32,
    pub total_cost: u32,
}

/// Merge the covering sets of the policies, cheapest pair first, until at
/// most 'target' remain or no pair can be merged.
pub fn greedy_merge(policies: &[Policy], target: usize) -> (r: GreedyMerge)
    requires
        all_wf(policies@),
        policies@.len() <= u32::MAX,
        policies@.len() <= usize::MAX - 63,
        cover_value(policy_views(policies@)) <= u32::MAX,
    ensures
        greedy_inv(policy_views(policies@), r.combined@),
        r.orig_value == cover_value(policy_views(policies@)),
        r.orig_value - sum_values(r.combined@) == r.total_cost,
        sum_step_costs(r.steps@) == r.total_cost,
        r.steps@.len() + r.combined@.len() == cover_spec(policy_views(policies@)).len(),
        r.combined@.len() <= target || is_best_pair(r.combined@, None),
        forall|k: int|
            0 <= k < r.steps@.len() ==> (#[trigger] r.steps@[k]).first.wf() && r.steps@[k].second.wf(),
        set_views(r.combined@) == greedy_spec(initial_sets(policy_views(policies@)), target as int).0,
        step_views(r.steps@) == greedy_spec(initial_sets(policy_views(policies@)), target as int).1,
{
    let ghost pols = policy_views(policies@);
    let mut combined = covering_supporters(policies);
    let ghost g = greedy_spec(initial_sets(pols), target as int);
    proof {
        assert(set_views(combined@) =~= initial_sets(pols));
        lemma_sum_values_cover(pols, combined@, cover_spec(pols));
        assert(combined@.take(0) =~= Seq::<PolSupporters>::empty());
    }
    let mut orig_value: u32 = 0;
    let mut k: usize = 0;
    while k < combined.len()
        invariant
            k <= combined@.len(),
            greedy_inv(pols, combined@),
            sum_values(combined@) == cover_value(pols),
            cover_value(pols) <= u32::MAX,
            orig_value == sum_values(combined@.take(k as int)),
        decreases combined@.len() - k,
    {
        proof {
            lemma_sum_values_prefix(combined@, k as int);
            lemma_sum_values_nonneg(combined@.take(k as int));
            lemma_value_nonneg(combined@[k as int]);
        }
        let v = combined[k].value();
        orig_value = orig_value + v;
        k = k + 1;
    }
    proof {
        assert(combined@.take(combined@.len() as int) =~= combined@);
    }
    let mut total_cost: u32 = 0;
    let mut steps: Vec<MergeStep> = Vec::new();
    let ghost initial_len = combined@.len();
    loop
        invariant
            greedy_inv(pols, combined@),
            pols.len() <= u32::MAX,
            orig_value == cover_value(pols),
            orig_value <= u32::MAX,
            sum_values(combined@) + total_cost == orig_value,
            sum_step_costs(steps@) == total_cost,
            steps@.len() + combined@.len() == initial_len,
            forall|k: int|
                0 <= k < steps@.len() ==> (#[trigger] steps@[k]).first.wf() && steps@[k].second.wf(),
            g == greedy_spec(initial_sets(pols), target as int),
            greedy_spec(set_views(combined@), target as int).0 == g.0,
            step_views(steps@) + greedy_spec(set_views(combined@), target as int).1 == g.1,
        ensures
            combined@.len() <= target || is_best_pair(combined@, None),
            set_views(combined@) == g.0,
            step_views(steps@) == g.1,
        decreases combined@.len(),
    {
        if combined.len() <= target {
            proof {
                assert(step_views(steps@) + Seq::<StepView>::empty() =~= step_views(steps@));
            }
            break;
        }
        let ghost s = combined@;
        proof {
            lemma_sum_values_nonneg(s);
            assert forall|i: int, j: int| 0 <= i < j < s.len() implies #[trigger] pair_cost(s, i, j)
                <= u32::MAX by {
                lemma_cost_le_values(s[i], s[j]);
                lemma_pair_le_sum(s, i, j);
            }
        }
        match best_pair(&combined) {
            Some((idx1, idx2, best_cost)) => {
                proof {
                    lemma_pair_le_sum(s, idx1 as int, idx2 as int);
                    lemma_remove_two(s, idx1 as int, idx2 as int);
                    s.remove_ensures(idx2 as int);
                    lemma_sum_values_remove(s, idx2 as int);
                    lemma_sum_values_remove(s.remove(idx2 as int), idx1 as int);
                }
                proof {
                    lemma_best_unique(set_views(s), Some((idx1, idx2, best_cost)));
                }
                let psup2 = combined.remove(idx2);
                let psup1 = combined.remove(idx1);
                proof {
                    assert(psup1 == s[idx1 as int]);
                    assert(psup2 == s[idx2 as int]);
                    assert(psup1.relays.size() == psup2.relays.size());
                }
                let (newval, cost) = psup1.combine(&psup2);
                proof {
                    lemma_merge_keeps_inv(pols, s, idx1 as int, idx2 as int, newval);
                    lemma_sum_values_push(combined@, newval);
                    lemma_set_views_merge(s, idx1 as int, idx2 as int, newval);
                }
                combined.push(newval);
                let ghost old_steps = steps@;
                let ghost sv = set_views(s);
                proof {
                    assert(sv[idx1 as int] == (psup1.ports@, psup1.relays@));
                    assert(sv[idx2 as int] == (psup2.ports@, psup2.relays@));
                    assert(set_views(combined@) == merge_views(sv, idx1 as int, idx2 as int));
                }
                let ghost first_view = psup1.ports@;
                let ghost second_view = psup2.ports@;
                steps.push(MergeStep { remaining: combined.len(), cost, first: psup1.ports, second: psup2.ports });
                proof {
                    assert(steps@.drop_last() =~= old_steps);
                    let next = merge_views(sv, idx1 as int, idx2 as int);
                    let rest = greedy_spec(next, target as int);
                    let st: StepView = (next.len(), best_cost as int, sv[idx1 as int].0, sv[idx2 as int].0);
                    assert(greedy_spec(sv, target as int) == (rest.0, seq![st] + rest.1));
                    assert(step_views(steps@) =~= step_views(old_steps).push(st));
                    assert(step_views(steps@) + rest.1 =~= step_views(old_steps) + (seq![st] + rest.1));
                }
                total_cost = total_cost + cost;
            },
            None => {
                proof {
                    lemma_best_unique(set_views(s), None);
                    assert(step_views(steps@) + Seq::<StepView>::empty() =~= step_views(steps@));
                }
                break;
            },
        }
    }
    GreedyMerge { combined, steps, orig_value, total_cost }
}

/// The ports of the merged sets.
pub open spec fn set_ports(s: Seq<PolSupporters>) -> Seq<Seq<bool>> {
    s.map_values(|x: PolSupporters| x.ports@)
}

/// The relay counts of the merged sets.
pub open spec fn set_relay_counts(s: Seq<PolSupporters>) -> Seq<u32> {
    s.map_values(|x: PolSupporters| count_true(x.relays@) as u32)
}

/// Among sets that share no port, a port counted with each set weighted by
/// its relay count counts the relays of the one set that holds it, and zero
/// when no set holds it.
pub proof fn lemma_merged_port_count(s: Seq<PolSupporters>, port: int)
    requires
        0 <= port < N_PORTS,
        forall|k: int| 0 <= k < s.len() ==> count_true((#[trigger] s[k]).relays@) <= u32::MAX,
        forall|a: int, b: int|
            0 <= a < s.len() && 0 <= b < s.len() && a != b ==> spec_disjoint(
                (#[trigger] s[a]).ports@,
                (#[trigger] s[b]).ports@,
            ),
    ensures
        forall|k: int|
            0 <= k < s.len() && (#[trigger] s[k]).ports@[port] ==> weighted_count(
                set_ports(s),
                set_relay_counts(s),
                port,
            ) == count_true(s[k].relays@),
        (forall|k: int| 0 <= k < s.len() ==> !(#[trigger] s[k]).ports@[port]) ==> weighted_count(
            set_ports(s),
            set_relay_counts(s),
            port,
        ) == 0,
{
    let wp = set_ports(s);
    let ww = set_relay_counts(s);
    assert forall|k: int| 0 <= k < s.len() && (#[trigger] s[k]).ports@[port] implies weighted_count(
        wp,
        ww,
        port,
    ) == count_true(s[k].relays@) by {
        assert forall|x: int| 0 <= x < wp.len() && x != k implies !(#[trigger] wp[x])[port] by {
            assert(spec_disjoint(s[x].ports@, s[k].ports@));
        }
        lemma_weighted_count_single(wp, ww, port, k);
        assert(wp[k] == s[k].ports@);
        assert(ww[k] == count_true(s[k].relays@) as u32);
    }
    if forall|k: int| 0 <= k < s.len() ==> !(#[trigger] s[k]).ports@[port] {
        assert forall|x: int| 0 <= x < wp.len() implies !(#[trigger] wp[x])[port] by {
            assert(wp[x] == s[x].ports@);
        }
        lemma_weighted_count_none(wp, ww, port);
    }
}

/// The greedy merge, and for each port the number of relays that accept it
/// before the merge and the number that the merged sets still serve it with.
pub struct GreedyReport {
    pub merge: GreedyMerge,
    pub orig_portcount: Vec<u32>,
    pub final_portcount: Vec<u32>,
}

/// Merge the covering sets greedily down to 'target' sets, and count for
/// each port the relays that accept it before and after.
pub fn greedy_combine_coverage(policies: &[Policy], target: usize) -> (r: GreedyReport)
    requires
        all_wf(policies@),
        policies@.len() <= u32::MAX,
        policies@.len() <= usize::MAX - 63,
        cover_value(policy_views(policies@)) <= u32::MAX,
    ensures
        greedy_inv(policy_views(policies@), r.merge.combined@),
        r.merge.orig_value == cover_value(policy_views(policies@)),
        r.merge.orig_value - sum_values(r.merge.combined@) == r.merge.total_cost,
        sum_step_costs(r.merge.steps@) == r.merge.total_cost,
        r.merge.steps@.len() + r.merge.combined@.len() == cover_spec(
            policy_views(policies@),
        ).len(),
        r.merge.combined@.len() <= target || is_best_pair(r.merge.combined@, None),
        forall|k: int|
            0 <= k < r.merge.steps@.len() ==> (#[trigger] r.merge.steps@[k]).first.wf()
                && r.merge.steps@[k].second.wf(),
        set_views(r.merge.combined@) == greedy_spec(
            initial_sets(policy_views(policies@)),
            target as int,
        ).0,
        step_views(r.merge.steps@) == greedy_spec(
            initial_sets(policy_views(policies@)),
            target as int,
        ).1,
        r.orig_portcount@.len() == N_PORTS,
        r.final_portcount@.len() == N_PORTS,
        forall|port: int|
            0 <= port < N_PORTS ==> #[trigger] r.orig_portcount@[port] == accepting_count(
                policy_views(policies@),
                port,
            ),
        forall|port: int|
            0 <= port < N_PORTS ==> #[trigger] r.final_portcount@[port] == weighted_count(
                set_ports(r.merge.combined@),
                set_relay_counts(r.merge.combined@),
                port,
            ),
        forall|port: int|
            0 <= port < N_PORTS ==> #[trigger] r.final_portcount@[port] <= r.orig_portcount@[port],
        forall|port: int, k: int|
            0 <= port < N_PORTS && 0 <= k < r.merge.combined@.len()
                && (#[trigger] r.merge.combined@[k]).ports@[port] ==> #[trigger] r.final_portcount@[port]
                == count_true(r.merge.combined@[k].relays@),
        forall|port: int|
            0 <= port < N_PORTS && (forall|k: int|
                0 <= k < r.merge.combined@.len() ==> !(#[trigger] r.merge.combined@[k]).ports@[port])
                ==> #[trigger] r.final_portcount@[port] == 0,
{
    let ghost pols = policy_views(policies@);
    let mut ones: Vec<(&Policy, u32)> = Vec::new();
    let mut k: usize = 0;
    while k < policies.len()
        invariant
            k <= policies@.len(),
            all_wf(policies@),
            ones@.len() == k,
            forall|j: int| 0 <= j < k ==> (#[trigger] ones@[j]).0 == policies@[j] && ones@[j].1 == 1,
        decreases policies@.len() - k,
    {
        ones.push((&policies[k], 1u32));
        k = k + 1;
    }
    proof {
        assert(pair_policies(ones@) =~= pols);
        assert forall|port: int| 0 <= port < N_PORTS implies #[trigger] weighted_count(
            pair_policies(ones@),
            pair_weights(ones@),
            port,
        ) <= u32::MAX by {
            lemma_weighted_count_ones(pols, pair_weights(ones@), port);
            crate::bits::lemma_count_le_len(Seq::new(pols.len(), |j: int| pols[j][port]));
        }
    }
    let orig_portcount = get_portcount(ones.as_slice());
    proof {
        assert forall|port: int| 0 <= port < N_PORTS implies #[trigger] orig_portcount@[port]
            == accepting_count(pols, port) by {
            lemma_weighted_count_ones(pols, pair_weights(ones@), port);
        }
    }
    let merge = greedy_merge(policies, target);
    let ghost s = merge.combined@;
    let mut weighted: Vec<(&Policy, u32)> = Vec::new();
    let mut m: usize = 0;
    while m < merge.combined.len()
        invariant
            m <= s.len(),
            s == merge.combined@,
            greedy_inv(pols, s),
            weighted@.len() == m,
            forall|j: int|
                0 <= j < m ==> (#[trigger] weighted@[j]).0@ == s[j].ports@ && weighted@[j].0.wf()
                    && weighted@[j].1 == count_true(s[j].relays@),
        decreases s.len() - m,
    {
        let ps = &merge.combined[m];
        let c = ps.relay_count();
        weighted.push((&ps.ports, c));
        m = m + 1;
    }
    let ghost wp = pair_policies(weighted@);
    let ghost ww = pair_weights(weighted@);
    proof {
        assert(wp =~= set_ports(s));
        assert(ww =~= set_relay_counts(s));
        assert forall|port: int| 0 <= port < N_PORTS implies #[trigger] weighted_count(wp, ww, port)
            <= accepting_count(pols, port) && accepting_count(pols, port) <= pols.len() by {
            crate::bits::lemma_count_le_len(Seq::new(pols.len(), |j: int| pols[j][port]));
            if exists|k: int| 0 <= k < s.len() && #[trigger] s[k].ports@[port] {
                let k = choose|k: int| 0 <= k < s.len() && #[trigger] s[k].ports@[port];
                assert forall|x: int| 0 <= x < wp.len() && x != k implies !(#[trigger] wp[x])[port] by {
                    assert(spec_disjoint(s[x].ports@, s[k].ports@));
                }
                lemma_weighted_count_single(wp, ww, port, k);
                lemma_supporters_count(pols, s[k].ports@);
                let col = Seq::new(pols.len(), |j: int| pols[j][port]);
                assert forall|j: int| 0 <= j < pols.len() && #[trigger] containing(pols, s[k].ports@)[j]
                    implies col[j] by {
                    assert(spec_contains(pols[j], s[k].ports@));
                }
                lemma_count_mono(containing(pols, s[k].ports@), col);
            } else {
                lemma_weighted_count_none(wp, ww, port);
            }
        }
    }
    let final_portcount = get_portcount(weighted.as_slice());
    proof {
        assert forall|k: int| 0 <= k < s.len() implies count_true((#[trigger] s[k]).relays@)
            <= u32::MAX by {
            assert(s[k].wf());
        }
        assert forall|port: int| 0 <= port < N_PORTS implies #[trigger] final_portcount@[port]
            == weighted_count(set_ports(s), set_relay_counts(s), port) by {}
        assert forall|port: int, k: int|
            0 <= port < N_PORTS && 0 <= k < s.len() && (#[trigger] s[k]).ports@[port] implies #[trigger] final_portcount@[port]
            == count_true(s[k].relays@) by {
            lemma_merged_port_count(s, port);
        }
        assert forall|port: int|
            0 <= port < N_PORTS && (forall|k: int|
                0 <= k < s.len() ==> !(#[trigger] s[k]).ports@[port]) implies #[trigger] final_portcount@[port] == 0 by {
            lemma_merged_port_count(s, port);
        }
    }
    GreedyReport { merge, orig_portcount, final_portcount }
}

/// Whether the summed value of the covering sets of the policies fits in 32
/// bits, as `greedy_merge` needs.
pub fn greedy_fits(policies: &[Policy]) -> (r: bool)
    requires
        all_wf(policies@),
        policies@.len() <= u32::MAX,
        policies@.len() <= usize::MAX - 63,
    ensures
        r == (cover_value(policy_views(policies@)) <= u32::MAX),
{
    let ghost pols = policy_views(policies@);
    let sets = covering_supporters(policies);
    proof {
        lemma_sum_values_cover(pols, sets@, cover_spec(pols));
        assert(sets@.take(0) =~= Seq::<PolSupporters>::empty());
    }
    let mut acc: u64 = 0;
    let mut k: usize = 0;
    while k < sets.len()
        invariant
            k <= sets@.len(),
            pols == policy_views(policies@),
            greedy_inv(pols, sets@),
            sum_values(sets@) == cover_value(pols),
            acc == sum_values(sets@.take(k as int)),
            acc <= u32::MAX,
        decreases sets@.len() - k,
    {
        proof {
            lemma_sum_values_prefix(sets@, k as int);
            lemma_sum_values_nonneg(sets@.take(k as int));
        }
        let pc = sets[k].port_count() as u64;
        let rc = sets[k].relay_count() as u64;
        proof {
            assert(pc * rc <= 65536 * 0xffff_ffff) by (nonlinear_arith)
                requires
                    pc <= 65536,
                    rc <= 0xffff_ffff,
            ;
        }
        acc = acc + pc * rc;
        proof {
            assert(sets@[k as int].spec_value() == pc * rc);
            assert(acc == sum_values(sets@.take(k + 1)));
        }
        if acc > 0xffff_ffff {
            return false;
        }
        k = k + 1;
    }
    proof {
        assert(sets@.take(sets@.len() as int) =~= sets@);
    }
    true
}

} // verus!
