//! A set of ports together with the relays whose policies accept all of it,
//! and what merging two such sets costs.

use vstd::prelude::*;
use crate::bitarray::{BitArray, spec_ceil_div};
use crate::bits::{
    count_true, lemma_count_le_len, lemma_count_split, lemma_count_disjoint_union,
    lemma_count_mono, lemma_count_concat, lemma_count_zero_iff,
};
use crate::cover::{containing, num_containing, cover_spec, policies_sized, lemma_cover_counts};
use crate::policy::{
    Policy, N_PORTS, policy_views, all_wf, spec_contains, spec_disjoint, spec_union,
};

verus! {

/// The number of bits of an array that was filled from `n` booleans.
pub open spec fn filled_size(n: int) -> int {
    64 * if n <= 64 {
        1
    } else {
        spec_ceil_div(n, 64)
    }
}

/// Which of the policies accept every port of `covering`, one bit per policy,
/// followed by clear bits up to the array's size.
pub open spec fn supporters_view(pols: Seq<Seq<bool>>, covering: Seq<bool>) -> Seq<bool> {
    Seq::new(
        filled_size(pols.len() as int) as nat,
        |i: int| i < pols.len() && spec_contains(pols[i], covering),
    )
}

/// The supporters of a set count as many as the policies that accept all of
/// it, and no more than the policies.
pub proof fn lemma_supporters_count(pols: Seq<Seq<bool>>, c: Seq<bool>)
    ensures
        count_true(supporters_view(pols, c)) == num_containing(pols, c),
        num_containing(pols, c) <= pols.len(),
{
    let n = pols.len() as int;
    let f = filled_size(n);
    assert(f >= n) by (nonlinear_arith)
        requires
            f == 64 * if n <= 64 {
                1
            } else {
                (n + 63) / 64
            },
            n >= 0,
    ;
    let pad = Seq::new((f - n) as nat, |i: int| false);
    assert(supporters_view(pols, c) =~= containing(pols, c) + pad);
    lemma_count_concat(containing(pols, c), pad);
    lemma_count_zero_iff(pad);
    lemma_count_le_len(containing(pols, c));
}

/// The count that the covering gives a class is the number of relays that
/// support it.
pub proof fn lemma_cover_count_is_relay_count(pols: Seq<Seq<bool>>, k: int)
    requires
        policies_sized(pols),
        0 <= k < cover_spec(pols).len(),
    ensures
        count_true(supporters_view(pols, cover_spec(pols)[k].0)) == cover_spec(pols)[k].1,
{
    lemma_cover_counts(pols);
    lemma_supporters_count(pols, cover_spec(pols)[k].0);
}

/// A policy supports the union of two port sets exactly when it supports
/// both.
pub proof fn lemma_supporters_union(pols: Seq<Seq<bool>>, p1: Seq<bool>, p2: Seq<bool>)
    requires
        p1.len() == N_PORTS,
        p2.len() == N_PORTS,
    ensures
        seq_and(supporters_view(pols, p1), supporters_view(pols, p2)) == supporters_view(
            pols,
            spec_union(p1, p2),
        ),
{
    let l = seq_and(supporters_view(pols, p1), supporters_view(pols, p2));
    let r = supporters_view(pols, spec_union(p1, p2));
    assert forall|i: int| 0 <= i < l.len() implies l[i] == r[i] by {
        if i < pols.len() {
            let u = spec_union(p1, p2);
            if spec_contains(pols[i], p1) && spec_contains(pols[i], p2) {
                assert forall|x: int| 0 <= x < N_PORTS && #[trigger] u[x] implies pols[i][x] by {
                    assert(u[x] == (p1[x] || p2[x]));
                }
            }
            if spec_contains(pols[i], u) {
                assert forall|x: int| 0 <= x < N_PORTS && #[trigger] p1[x] implies pols[i][x] by {
                    assert(u[x] == (p1[x] || p2[x]));
                }
                assert forall|x: int| 0 <= x < N_PORTS && #[trigger] p2[x] implies pols[i][x] by {
                    assert(u[x] == (p1[x] || p2[x]));
                }
            }
        }
    }
    assert(l =~= r);
}

/// Bit `k` of the supporters of `c` is set, for `k` below the number of
/// policies, exactly when policy `k` accepts every port of `c`; the bits
/// past the policies, up to a whole number of words and at least one word,
/// are clear.
pub proof fn lemma_supporters_bits(pols: Seq<Seq<bool>>, c: Seq<bool>)
    ensures
        supporters_view(pols, c).len() == filled_size(pols.len() as int),
        pols.len() <= supporters_view(pols, c).len(),
        forall|k: int|
            0 <= k < pols.len() ==> #[trigger] supporters_view(pols, c)[k] == (forall|x: int|
                0 <= x < N_PORTS && #[trigger] c[x] ==> pols[k][x]),
        forall|k: int|
            pols.len() <= k < supporters_view(pols, c).len() ==> !#[trigger] supporters_view(
                pols,
                c,
            )[k],
{
    let n = pols.len() as int;
    assert(filled_size(n) >= n) by (nonlinear_arith)
        requires
            filled_size(n) == 64 * if n <= 64 {
                1
            } else {
                (n + 63) / 64
            },
            n >= 0,
    ;
}

/// For a given covering policy, return a bitarray representing which
/// members of 'policies' support every one of its ports.
pub fn find_supporting_policies(covering: &Policy, policies: &[Policy]) -> (r: BitArray)
    requires
        covering.wf(),
        all_wf(policies@),
        policies@.len() <= usize::MAX - 63,
    ensures
        r.wf(),
        r.size() == filled_size(policies@.len() as int),
        r@ == supporters_view(policy_views(policies@), covering@),
        forall|k: int|
            0 <= k < policies@.len() ==> #[trigger] r@[k] == (forall|x: int|
                0 <= x < N_PORTS && #[trigger] covering@[x] ==> policies@[k]@[x]),
        forall|k: int| policies@.len() <= k < r@.len() ==> !#[trigger] r@[k],
{
    let mut supports: Vec<bool> = Vec::new();
    let mut k: usize = 0;
    while k < policies.len()
        invariant
            k <= policies@.len(),
            covering.wf(),
            all_wf(policies@),
            supports@.len() == k,
            forall|j: int|
                0 <= j < k ==> #[trigger] supports@[j] == spec_contains(policies@[j]@, covering@),
        decreases policies@.len() - k,
    {
        let p = &policies[k];
        supports.push(p.contains(covering));
        k = k + 1;
    }
    let r = BitArray::from_iter(supports.as_slice());
    proof {
        let pols = policy_views(policies@);
        assert(r@ =~= supporters_view(pols, covering@));
        lemma_supporters_bits(pols, covering@);
        assert forall|k: int| 0 <= k < policies@.len() implies pols[k] == policies@[k]@ by {}
    }
    r
}

/// The number of bits both arrays hold.
pub open spec fn count_both(a: Seq<bool>, b: Seq<bool>) -> nat {
    count_true(Seq::new(a.len(), |i: int| a[i] && b[i]))
}

/// The number of bits `a` holds and `b` does not.
pub open spec fn count_only(a: Seq<bool>, b: Seq<bool>) -> nat {
    count_true(Seq::new(a.len(), |i: int| a[i] && !b[i]))
}

/// The bits that both arrays hold, over the length of the first.
pub open spec fn seq_and(a: Seq<bool>, b: Seq<bool>) -> Seq<bool> {
    Seq::new(a.len(), |i: int| a[i] && b[i])
}

/// The value of a set: its ports times the relays that support them.
pub open spec fn spec_value(ports: Seq<bool>, relays: Seq<bool>) -> int {
    (count_true(ports) * count_true(relays)) as int
}

/// What merging two sets loses: each set's ports times the relays that
/// support it but not the other.
pub open spec fn spec_cost(p1: Seq<bool>, r1: Seq<bool>, p2: Seq<bool>, r2: Seq<bool>) -> int {
    (count_only(r1, r2) * count_true(p1) + count_only(r2, r1) * count_true(p2)) as int
}

/// Merging two sets whose ports are disjoint, or whose relays share none,
/// loses exactly the cost: the value of the merged set (the union of the
/// ports, supported by the relays of both) plus the cost is the sum of the
/// two values.
pub proof fn lemma_combine_value(p1: Seq<bool>, r1: Seq<bool>, p2: Seq<bool>, r2: Seq<bool>)
    requires
        p1.len() == N_PORTS,
        p2.len() == N_PORTS,
        r1.len() == r2.len(),
        spec_disjoint(p1, p2) || count_both(r1, r2) == 0,
    ensures
        spec_value(spec_union(p1, p2), seq_and(r1, r2)) + spec_cost(p1, r1, p2, r2)
            == spec_value(p1, r1) + spec_value(p2, r2),
{
    let n = r1.len();
    let both12 = Seq::new(n, |i: int| r1[i] && r2[i]);
    let both21 = Seq::new(n, |i: int| r2[i] && r1[i]);
    let only12 = Seq::new(n, |i: int| r1[i] && !r2[i]);
    let only21 = Seq::new(n, |i: int| r2[i] && !r1[i]);
    lemma_count_split(r1, r2, both12, only12);
    lemma_count_split(r2, r1, both21, only21);
    assert(both12 =~= both21);
    let inter = Seq::new(r1.len(), |i: int| r1[i] && r2[i]);
    assert(inter =~= both12);
    let k = count_true(both12);
    let a = count_true(only12);
    let b = count_true(only21);
    let c1 = count_true(p1);
    let c2 = count_true(p2);
    let cu = count_true(spec_union(p1, p2));
    if spec_disjoint(p1, p2) {
        lemma_count_disjoint_union(p1, p2, spec_union(p1, p2));
        assert(cu == c1 + c2);
        assert(cu * k + (a * c1 + b * c2) == c1 * (k + a) + c2 * (k + b)) by (nonlinear_arith)
            requires
                cu == c1 + c2,
        ;
    } else {
        assert(k == 0);
        assert(cu * k == 0) by (nonlinear_arith)
            requires
                k == 0,
        ;
        assert(a * c1 + b * c2 == c1 * (k + a) + c2 * (k + b)) by (nonlinear_arith)
            requires
                k == 0,
        ;
    }
}

/// A set of ports and the relays that support every one of them.
#[derive(Clone, PartialEq, Eq)]
pub struct PolSupporters {
    pub ports: Policy,
    pub relays: BitArray,
}

impl PolSupporters {
    /// Both parts are well formed.
    pub open spec fn wf(&self) -> bool {
        &&& self.ports.wf()
        &&& self.relays.wf()
    }

    /// The value of the set.
    pub open spec fn spec_value(&self) -> int {
        spec_value(self.ports@, self.relays@)
    }

    /// What merging with `ps` loses.
    pub open spec fn spec_cost(&self, ps: &PolSupporters) -> int {
        spec_cost(self.ports@, self.relays@, ps.ports@, ps.relays@)
    }

    /// Two sets are equal when their ports, their relays and the sizes of
    /// their relay arrays are.
    pub fn equals(&self, ps: &PolSupporters) -> (r: bool)
        requires
            self.wf(),
            ps.wf(),
        ensures
            r == (self.ports@ == ps.ports@ && self.relays@ == ps.relays@ && self.relays.size()
                == ps.relays.size()),
    {
        self.ports.equals(&ps.ports) && self.relays.equals(&ps.relays)
    }

    /// The set 'ports' with the relays among 'all_policies' that support it.
    pub fn from_port_set(ports: Policy, all_policies: &[Policy]) -> (r: PolSupporters)
        requires
            ports.wf(),
            all_wf(all_policies@),
            all_policies@.len() <= usize::MAX - 63,
        ensures
            r.wf(),
            r.ports == ports,
            r.relays.size() == filled_size(all_policies@.len() as int),
            r.relays@ == supporters_view(policy_views(all_policies@), ports@),
            forall|k: int|
                0 <= k < all_policies@.len() ==> #[trigger] r.relays@[k] == (forall|x: int|
                    0 <= x < N_PORTS && #[trigger] ports@[x] ==> all_policies@[k]@[x]),
            forall|k: int| all_policies@.len() <= k < r.relays@.len() ==> !#[trigger] r.relays@[k],
    {
        let relays = find_supporting_policies(&ports, all_policies);
        PolSupporters { ports, relays }
    }

    /// Sets built by `from_port_set` over the same policies have relay
    /// arrays of one size and relay views of one length, so any two of them
    /// can be merged and their merge cost taken.
    pub proof fn lemma_same_policies_same_size(
        a: PolSupporters,
        b: PolSupporters,
        pols: Seq<Seq<bool>>,
    )
        requires
            a.wf(),
            b.wf(),
            a.relays.size() == filled_size(pols.len() as int),
            a.relays@ == supporters_view(pols, a.ports@),
            b.relays.size() == filled_size(pols.len() as int),
            b.relays@ == supporters_view(pols, b.ports@),
        ensures
            a.relays.size() == b.relays.size(),
            a.relays@.len() == b.relays@.len(),
            a.relays@.len() == filled_size(pols.len() as int),
    {
    }

    /// The number of ports.
    pub fn port_count(&self) -> (r: u32)
        requires
            self.wf(),
        ensures
            r == count_true(self.ports@),
            r <= N_PORTS,
    {
        self.ports.port_count()
    }

    /// The number of supporting relays.
    pub fn relay_count(&self) -> (r: u32)
        requires
            self.wf(),
            count_true(self.relays@) <= u32::MAX,
        ensures
            r == count_true(self.relays@),
    {
        self.relays.count()
    }

    /// The number of ports times the number of supporting relays.
    pub fn value(&self) -> (r: u32)
        requires
            self.wf(),
            count_true(self.relays@) <= u32::MAX,
            self.spec_value() <= u32::MAX,
        ensures
            r == self.spec_value(),
    {
        let pc = self.ports.port_count();
        let rc = self.relays.count();
        pc * rc
    }

    /// The relays that support this set but not 'ps', times this set's ports,
    /// plus those that support 'ps' but not this set, times its ports.
    pub fn combining_cost(&self, ps: &PolSupporters) -> (r: u32)
        requires
            self.wf(),
            ps.wf(),
            self.relays.size() == ps.relays.size(),
            count_only(self.relays@, ps.relays@) <= u32::MAX,
            count_only(ps.relays@, self.relays@) <= u32::MAX,
            self.spec_cost(ps) <= u32::MAX,
        ensures
            r == self.spec_cost(ps),
    {
        // number of relays supporting us but not ps.
        let d1 = self.relays.subtract(&ps.relays);
        // number of relays supporting ps but not us.
        let d2 = ps.relays.subtract(&self.relays);
        proof {
            assert(d1@ =~= Seq::new(self.relays@.len(), |i: int| self.relays@[i] && !ps.relays@[i]));
            assert(d2@ =~= Seq::new(ps.relays@.len(), |i: int| ps.relays@[i] && !self.relays@[i]));
            lemma_count_le_len(d1@);
            lemma_count_le_len(d2@);
        }
        let pc1 = self.port_count();
        let pc2 = ps.port_count();
        proof {
            let a = count_true(d1@);
            let b = count_true(d2@);
            assert(a * pc1 <= a * pc1 + b * pc2 && b * pc2 <= a * pc1 + b * pc2) by (nonlinear_arith)
                requires
                    a >= 0,
                    b >= 0,
                    pc1 >= 0,
                    pc2 >= 0,
            ;
        }
        let r1 = d1.count();
        let r2 = d2.count();
        r1 * pc1 + r2 * pc2
    }

    /// Merge with 'ps': the union of the ports, supported by the relays that
    /// support both; also returns what the merge costs. The value lost by the
    /// merge is exactly that cost.
    pub fn combine(&self, ps: &PolSupporters) -> (r: (PolSupporters, u32))
        requires
            self.wf(),
            ps.wf(),
            self.relays.size() == ps.relays.size(),
            count_true(self.relays@) <= u32::MAX,
            count_true(ps.relays@) <= u32::MAX,
            self.spec_value() + ps.spec_value() <= u32::MAX,
            spec_disjoint(self.ports@, ps.ports@) || count_both(self.relays@, ps.relays@) == 0,
        ensures
            r.0.wf(),
            r.0.ports@ == spec_union(self.ports@, ps.ports@),
            r.0.relays@ == seq_and(self.relays@, ps.relays@),
            r.0.relays.size() == self.relays.size(),
            r.1 == self.spec_cost(ps),
            self.spec_value() + ps.spec_value() - r.0.spec_value() == r.1,
    {
        let ports = self.ports.union(&ps.ports);
        let relays = self.relays.intersect(&ps.relays);
        let result = PolSupporters { ports, relays };
        proof {
            self.ports.lemma_len();
            ps.ports.lemma_len();
            self.relays.lemma_view_len();
            ps.relays.lemma_view_len();
            assert(relays@ =~= seq_and(self.relays@, ps.relays@));
            lemma_combine_value(self.ports@, self.relays@, ps.ports@, ps.relays@);
            let r1 = self.relays@;
            let r2 = ps.relays@;
            lemma_count_mono(Seq::new(r1.len(), |i: int| r1[i] && !r2[i]), r1);
            lemma_count_mono(Seq::new(r2.len(), |i: int| r2[i] && !r1[i]), r2);
            lemma_count_mono(relays@, r1);
            let cu = count_true(spec_union(self.ports@, ps.ports@));
            let k = count_true(relays@);
            assert(cu * k >= 0) by (nonlinear_arith)
                requires
                    cu >= 0,
                    k >= 0,
            ;
            let a = count_only(r1, r2);
            let b = count_only(r2, r1);
            let c1 = count_true(self.ports@);
            let c2 = count_true(ps.ports@);
            assert(a * c1 >= 0 && b * c2 >= 0) by (nonlinear_arith)
                requires
                    a >= 0,
                    b >= 0,
                    c1 >= 0,
                    c2 >= 0,
            ;
        }
        let cc = self.combining_cost(ps);
        (result, cc)
    }
}

} // verus!
