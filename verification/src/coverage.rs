//! For each covering set, the other sets it could be merged with at a loss of
//! at most 5% of the relays of either.

use vstd::prelude::*;
use crate::bits::{count_true, lemma_count_mono};
use crate::cover::cover_spec;
use crate::greedy::{covering_supporters, greedy_inv, pair_cost};
use crate::policy::{Policy, policy_views, all_wf};
use crate::supporters::{PolSupporters, spec_cost, supporters_view};

verus! {

/// Merging sets `i` and `j` is acceptable: it loses at most a twentieth of the
/// relays of either, and the two sets differ.
pub open spec fn merge_acceptable(s: Seq<PolSupporters>, i: int, j: int) -> bool {
    &&& 20 * pair_cost(s, i, j) <= count_true(s[i].relays@)
    &&& 20 * pair_cost(s, i, j) <= count_true(s[j].relays@)
    &&& !(s[i].ports@ == s[j].ports@ && s[i].relays@ == s[j].relays@ && s[i].relays.size()
        == s[j].relays.size())
}

/// The sets among the first `m` that set `i` may acceptably be merged with,
/// each with the loss, in order.
pub open spec fn acceptable_pairs(s: Seq<PolSupporters>, i: int, m: int) -> Seq<(usize, u32)>
    decreases m,
{
    if m <= 0 {
        Seq::empty()
    } else {
        acceptable_pairs(s, i, m - 1) + if merge_acceptable(s, i, m - 1) {
            seq![((m - 1) as usize, pair_cost(s, i, m - 1) as u32)]
        } else {
            Seq::empty()
        }
    }
}

/// What the pairs listed for set `i` among the first `m` sets are: each
/// names a set `j` below `m` with the cost of merging `i` and `j`; that cost
/// loses at most a twentieth of the relays of set `i` and at most a twentieth
/// of the relays of set `j`; the two sets differ. Every set below `m` that
/// meets both bounds and differs from set `i` is listed, and the sets are
/// listed in increasing order.
pub proof fn lemma_acceptable_pairs(s: Seq<PolSupporters>, i: int, m: int)
    requires
        0 <= i < s.len(),
        0 <= m <= s.len(),
        s.len() <= usize::MAX,
        forall|j: int| 0 <= j < s.len() ==> count_true((#[trigger] s[j]).relays@) <= u32::MAX,
    ensures
        forall|k: int|
            0 <= k < acceptable_pairs(s, i, m).len() ==> {
                let e = #[trigger] acceptable_pairs(s, i, m)[k];
                let j = e.0 as int;
                let cost = spec_cost(s[i].ports@, s[i].relays@, s[j].ports@, s[j].relays@);
                &&& 0 <= j < m
                &&& e.1 as int == cost
                &&& 20 * cost <= count_true(s[i].relays@)
                &&& 20 * cost <= count_true(s[j].relays@)
                &&& !(s[i].ports@ == s[j].ports@ && s[i].relays@ == s[j].relays@
                    && s[i].relays.size() == s[j].relays.size())
            },
        forall|j: int|
            #![trigger s[j]]
            0 <= j < m && 20 * spec_cost(s[i].ports@, s[i].relays@, s[j].ports@, s[j].relays@)
                <= count_true(s[i].relays@) && 20 * spec_cost(
                s[i].ports@,
                s[i].relays@,
                s[j].ports@,
                s[j].relays@,
            ) <= count_true(s[j].relays@) && !(s[i].ports@ == s[j].ports@ && s[i].relays@
                == s[j].relays@ && s[i].relays.size() == s[j].relays.size()) ==> exists|k: int|
                0 <= k < acceptable_pairs(s, i, m).len() && (#[trigger] acceptable_pairs(
                    s,
                    i,
                    m,
                )[k]).0 == j,
        forall|k1: int, k2: int|
            0 <= k1 < k2 < acceptable_pairs(s, i, m).len() ==> (#[trigger] acceptable_pairs(
                s,
                i,
                m,
            )[k1]).0 < (#[trigger] acceptable_pairs(s, i, m)[k2]).0,
    decreases m,
{
    if m > 0 {
        lemma_acceptable_pairs(s, i, m - 1);
        let prev = acceptable_pairs(s, i, m - 1);
        let cur = acceptable_pairs(s, i, m);
        let j = m - 1;
        assert(count_true(s[i].relays@) <= u32::MAX);
        assert(count_true(s[j].relays@) <= u32::MAX);
        if merge_acceptable(s, i, j) {
            let e = ((m - 1) as usize, pair_cost(s, i, j) as u32);
            assert(cur == prev + seq![e]);
            assert(cur[prev.len() as int] == e);
            assert forall|k: int| 0 <= k < prev.len() implies cur[k] == prev[k] by {}
            assert forall|x: int|
                #![trigger s[x]]
                0 <= x < m && 20 * spec_cost(s[i].ports@, s[i].relays@, s[x].ports@, s[x].relays@)
                    <= count_true(s[i].relays@) && 20 * spec_cost(
                    s[i].ports@,
                    s[i].relays@,
                    s[x].ports@,
                    s[x].relays@,
                ) <= count_true(s[x].relays@) && !(s[i].ports@ == s[x].ports@ && s[i].relays@
                    == s[x].relays@ && s[i].relays.size() == s[x].relays.size()) implies exists|
                k: int| 0 <= k < cur.len() && (#[trigger] cur[k]).0 == x by {
                if x < m - 1 {
                    let k = choose|k: int| 0 <= k < prev.len() && (#[trigger] prev[k]).0 == x;
                    assert(cur[k] == prev[k]);
                } else {
                    assert(cur[prev.len() as int].0 == x);
                }
            }
        } else {
            assert(cur == prev + Seq::<(usize, u32)>::empty());
            assert(cur =~= prev);
        }
    }
}

/// Twenty times the cost of merging any two covering sets fits in 32 bits.
pub open spec fn cover_costs_fit(pols: Seq<Seq<bool>>) -> bool {
    let cs = cover_spec(pols);
    forall|i: int, j: int|
        0 <= i < cs.len() && 0 <= j < cs.len() ==> 20 * spec_cost(
            #[trigger] cs[i].0,
            supporters_view(pols, cs[i].0),
            #[trigger] cs[j].0,
            supporters_view(pols, cs[j].0),
        ) <= u32::MAX
}

/// The analysis of one covering set: its relay count, and the sets it may
/// acceptably be merged with, each with the loss.
pub struct SetAnalysis {
    pub relay_count: u32,
    pub acceptable: Vec<(usize, u32)>,
}

/// The covering sets of the policies and the analysis of each.
pub struct CoverageAnalysis {
    pub sets: Vec<PolSupporters>,
    pub analyses: Vec<SetAnalysis>,
}

/// Find covering policy sets, and the impact of combining each set with each
/// other set, where the result isn't "too bad".
pub fn analyze_coverage_combinations(policies: &[Policy]) -> (r: CoverageAnalysis)
    requires
        all_wf(policies@),
        policies@.len() <= u32::MAX,
        policies@.len() <= usize::MAX - 63,
        cover_costs_fit(policy_views(policies@)),
    ensures
        r.sets@.len() == cover_spec(policy_views(policies@)).len(),
        forall|k: int|
            0 <= k < r.sets@.len() ==> (#[trigger] r.sets@[k]).ports@ == cover_spec(
                policy_views(policies@),
            )[k].0,
        greedy_inv(policy_views(policies@), r.sets@),
        r.analyses@.len() == r.sets@.len(),
        forall|i: int|
            0 <= i < r.sets@.len() ==> (#[trigger] r.analyses@[i]).relay_count == count_true(
                r.sets@[i].relays@,
            ) && r.analyses@[i].acceptable@ == acceptable_pairs(
                r.sets@,
                i,
                r.sets@.len() as int,
            ),
        forall|i: int, k: int|
            0 <= i < r.sets@.len() && 0 <= k < r.analyses@[i].acceptable@.len() ==> {
                let e = #[trigger] r.analyses@[i].acceptable@[k];
                let j = e.0 as int;
                let si = r.sets@[i];
                let sj = r.sets@[j];
                &&& 0 <= j < r.sets@.len()
                &&& e.1 as int == spec_cost(si.ports@, si.relays@, sj.ports@, sj.relays@)
                &&& 20 * e.1 <= count_true(si.relays@)
                &&& 20 * e.1 <= count_true(sj.relays@)
                &&& !(si.ports@ == sj.ports@ && si.relays@ == sj.relays@ && si.relays.size()
                    == sj.relays.size())
            },
        forall|i: int, j: int|
            0 <= i < r.sets@.len() && 0 <= j < r.sets@.len() && 20 * #[trigger] spec_cost(
                r.sets@[i].ports@,
                r.sets@[i].relays@,
                r.sets@[j].ports@,
                r.sets@[j].relays@,
            ) <= count_true(r.sets@[i].relays@) && 20 * spec_cost(
                r.sets@[i].ports@,
                r.sets@[i].relays@,
                r.sets@[j].ports@,
                r.sets@[j].relays@,
            ) <= count_true(r.sets@[j].relays@) && !(r.sets@[i].ports@ == r.sets@[j].ports@
                && r.sets@[i].relays@ == r.sets@[j].relays@ && r.sets@[i].relays.size()
                == r.sets@[j].relays.size()) ==> exists|k: int|
                0 <= k < r.analyses@[i].acceptable@.len() && (#[trigger] r.analyses@[i].acceptable@[k]).0
                    == j,
{
    let ghost pols = policy_views(policies@);
    let covering_sets = covering_supporters(policies);
    let ghost s = covering_sets@;
    let n = covering_sets.len();
    let mut analyses: Vec<SetAnalysis> = Vec::new();
    let mut i: usize = 0;
    while i < n
        invariant
            n == s.len(),
            s == covering_sets@,
            s.len() == cover_spec(pols).len(),
            forall|k: int| 0 <= k < s.len() ==> (#[trigger] s[k]).ports@ == cover_spec(pols)[k].0,
            greedy_inv(pols, s),
            cover_costs_fit(pols),
            i <= n,
            analyses@.len() == i,
            forall|k: int|
                0 <= k < i ==> (#[trigger] analyses@[k]).relay_count == count_true(s[k].relays@)
                    && analyses@[k].acceptable@ == acceptable_pairs(s, k, n as int),
        decreases n - i,
    {
        let psup1 = &covering_sets[i];
        let count1 = psup1.relay_count();
        let mut accepted: Vec<(usize, u32)> = Vec::new();
        let mut j: usize = 0;
        while j < n
            invariant
                n == s.len(),
                s == covering_sets@,
                s.len() == cover_spec(pols).len(),
                forall|k: int| 0 <= k < s.len() ==> (#[trigger] s[k]).ports@ == cover_spec(pols)[k].0,
                greedy_inv(pols, s),
                cover_costs_fit(pols),
                i < n,
                j <= n,
                psup1 == s[i as int],
                count1 == count_true(s[i as int].relays@),
                accepted@ == acceptable_pairs(s, i as int, j as int),
            decreases n - j,
        {
            let psup2 = &covering_sets[j];
            let count2 = psup2.relay_count();
            proof {
                let cs = cover_spec(pols);
                assert(cs[i as int].0 == s[i as int].ports@);
                assert(cs[j as int].0 == s[j as int].ports@);
                assert(20 * pair_cost(s, i as int, j as int) <= u32::MAX);
                lemma_count_mono(
                    Seq::new(psup1.relays@.len(), |x: int| psup1.relays@[x] && !psup2.relays@[x]),
                    psup1.relays@,
                );
                lemma_count_mono(
                    Seq::new(psup2.relays@.len(), |x: int| psup2.relays@[x] && !psup1.relays@[x]),
                    psup2.relays@,
                );
                crate::bits::lemma_count_le_len(psup1.relays@);
            }
            let loss = psup1.combining_cost(psup2);
            // A combination is "acceptable" if it gives at most 5% loss
            // from either set.
            let acceptable = loss * 20 <= count1 && loss * 20 <= count2;
            if acceptable && !psup1.equals(psup2) {
                accepted.push((j, loss));
            }
            proof {
                assert(acceptable_pairs(s, i as int, j + 1) == acceptable_pairs(s, i as int, j as int)
                    + if merge_acceptable(s, i as int, j as int) {
                    seq![(j, pair_cost(s, i as int, j as int) as u32)]
                } else {
                    Seq::<(usize, u32)>::empty()
                });
                assert(accepted@ =~= acceptable_pairs(s, i as int, j + 1));
            }
            j = j + 1;
        }
        analyses.push(SetAnalysis { relay_count: count1, acceptable: accepted });
        i = i + 1;
    }
    proof {
        assert forall|x: int| 0 <= x < s.len() implies count_true((#[trigger] s[x]).relays@)
            <= u32::MAX by {
            assert(s[x].wf());
        }
        assert forall|x: int| 0 <= x < n implies #[trigger] analyses@[x].acceptable@
            == acceptable_pairs(s, x, n as int) by {}
        assert forall|x: int, k: int| 0 <= x < n && 0 <= k < analyses@[x].acceptable@.len() implies {
            let e = #[trigger] analyses@[x].acceptable@[k];
            let j = e.0 as int;
            &&& 0 <= j < s.len()
            &&& e.1 as int == spec_cost(s[x].ports@, s[x].relays@, s[j].ports@, s[j].relays@)
            &&& 20 * e.1 <= count_true(s[x].relays@)
            &&& 20 * e.1 <= count_true(s[j].relays@)
            &&& !(s[x].ports@ == s[j].ports@ && s[x].relays@ == s[j].relays@ && s[x].relays.size()
                == s[j].relays.size())
        } by {
            lemma_acceptable_pairs(s, x, n as int);
            assert(analyses@[x].acceptable@[k] == acceptable_pairs(s, x, n as int)[k]);
        }
        assert forall|x: int, j: int|
            0 <= x < n && 0 <= j < n && 20 * #[trigger] spec_cost(
                s[x].ports@,
                s[x].relays@,
                s[j].ports@,
                s[j].relays@,
            ) <= count_true(s[x].relays@) && 20 * spec_cost(
                s[x].ports@,
                s[x].relays@,
                s[j].ports@,
                s[j].relays@,
            ) <= count_true(s[j].relays@) && !(s[x].ports@ == s[j].ports@ && s[x].relays@
                == s[j].relays@ && s[x].relays.size() == s[j].relays.size()) implies exists|k: int|
            0 <= k < analyses@[x].acceptable@.len() && (#[trigger] analyses@[x].acceptable@[k]).0
                == j by {
            lemma_acceptable_pairs(s, x, n as int);
            assert(s[j] == s[j]);
            let k = choose|k: int|
                0 <= k < acceptable_pairs(s, x, n as int).len() && (#[trigger] acceptable_pairs(
                    s,
                    x,
                    n as int,
                )[k]).0 == j;
            assert(analyses@[x].acceptable@[k] == acceptable_pairs(s, x, n as int)[k]);
        }
    }
    CoverageAnalysis { sets: covering_sets, analyses }
}

/// Whether twenty times the cost of merging any two covering sets of the
/// policies fits in 32 bits, as `analyze_coverage_combinations` needs.
pub fn coverage_fits(policies: &[Policy]) -> (r: bool)
    requires
        all_wf(policies@),
        policies@.len() <= u32::MAX,
        policies@.len() <= usize::MAX - 63,
    ensures
        r == cover_costs_fit(policy_views(policies@)),
{
    let ghost pols = policy_views(policies@);
    let sets = covering_supporters(policies);
    let ghost s = sets@;
    let ghost cs = cover_spec(pols);
    let n = sets.len();
    let mut i: usize = 0;
    while i < n
        invariant
            n == s.len(),
            s == sets@,
            cs == cover_spec(pols),
            pols == policy_views(policies@),
            s.len() == cs.len(),
            forall|k: int| 0 <= k < s.len() ==> (#[trigger] s[k]).ports@ == cs[k].0,
            greedy_inv(pols, s),
            i <= n,
            forall|a: int, b: int| 0 <= a < i && 0 <= b < n ==> 20 * #[trigger] pair_cost(s, a, b) <= u32::MAX,
        decreases n - i,
    {
        let mut j: usize = 0;
        while j < n
            invariant
                n == s.len(),
                s == sets@,
                cs == cover_spec(pols),
                pols == policy_views(policies@),
                s.len() == cs.len(),
                forall|k: int| 0 <= k < s.len() ==> (#[trigger] s[k]).ports@ == cs[k].0,
                greedy_inv(pols, s),
                i < n,
                j <= n,
                forall|a: int, b: int|
                    0 <= a < i && 0 <= b < n ==> 20 * #[trigger] pair_cost(s, a, b) <= u32::MAX,
                forall|b: int| 0 <= b < j ==> 20 * #[trigger] pair_cost(s, i as int, b) <= u32::MAX,
            decreases n - j,
        {
            let p1 = &sets[i];
            let p2 = &sets[j];
            let d1 = p1.relays.subtract(&p2.relays);
            let d2 = p2.relays.subtract(&p1.relays);
            proof {
                assert(d1@ =~= Seq::new(p1.relays@.len(), |x: int| p1.relays@[x] && !p2.relays@[x]));
                assert(d2@ =~= Seq::new(p2.relays@.len(), |x: int| p2.relays@[x] && !p1.relays@[x]));
                lemma_count_mono(d1@, p1.relays@);
                lemma_count_mono(d2@, p2.relays@);
            }
            let a = d1.count() as u64;
            let b = d2.count() as u64;
            let c1 = p1.port_count() as u64;
            let c2 = p2.port_count() as u64;
            proof {
                assert(a * c1 <= 0xffff_ffff * 65536 && b * c2 <= 0xffff_ffff * 65536) by (nonlinear_arith)
                    requires
                        a <= 0xffff_ffff,
                        b <= 0xffff_ffff,
                        c1 <= 65536,
                        c2 <= 65536,
                ;
            }
            let cost = a * c1 + b * c2;
            if cost * 20 > 0xffff_ffff {
                proof {
                    assert(cs[i as int].0 == s[i as int].ports@);
                    assert(cs[j as int].0 == s[j as int].ports@);
                }
                return false;
            }
            j = j + 1;
        }
        i = i + 1;
    }
    proof {
        assert forall|a: int, b: int| 0 <= a < cs.len() && 0 <= b < cs.len() implies 20 * spec_cost(
            #[trigger] cs[a].0,
            supporters_view(pols, cs[a].0),
            #[trigger] cs[b].0,
            supporters_view(pols, cs[b].0),
        ) <= u32::MAX by {
            assert(cs[a].0 == s[a].ports@);
            assert(cs[b].0 == s[b].ports@);
            assert(20 * pair_cost(s, a, b) <= u32::MAX);
        }
    }
    true
}

} // verus!
