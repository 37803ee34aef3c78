//! The covering of the port space that a list of policies induces: disjoint
//! port sets such that every policy is the union of some of them.

use vstd::prelude::*;
use crate::policy::{
    Policy, N_PORTS, policy_views, all_wf, spec_contains, spec_disjoint, spec_intersect,
    spec_negate,
};
use crate::bits::count_true;

verus! {

/// A class of the covering as a value: its ports and the number of policies
/// that accept all of them.
pub type ClassView = (Seq<bool>, nat);

/// The class every covering starts from: ports 1 to 65535.
pub open spec fn initial_class() -> Seq<bool> {
    Seq::new(N_PORTS as nat, |i: int| 1 <= i)
}

/// What one class becomes once the policy `pol` is taken into account: it is
/// kept whole (and counted) when `pol` accepts all of it, kept whole when `pol`
/// accepts none of it, and otherwise split into the part that `pol` accepts
/// (counted) and the part that it does not.
pub open spec fn refine_class(c: ClassView, pol: Seq<bool>) -> Seq<ClassView> {
    if spec_contains(pol, c.0) {
        seq![(c.0, c.1 + 1)]
    } else if spec_disjoint(pol, c.0) {
        seq![c]
    } else {
        seq![
            (spec_intersect(c.0, pol), c.1 + 1),
            (spec_intersect(c.0, spec_negate(pol)), c.1),
        ]
    }
}

/// Every class refined by `pol`, in order.
pub open spec fn refine(classes: Seq<ClassView>, pol: Seq<bool>) -> Seq<ClassView>
    decreases classes.len(),
{
    if classes.len() == 0 {
        Seq::empty()
    } else {
        refine(classes.drop_last(), pol) + refine_class(classes.last(), pol)
    }
}

/// The covering of a list of policies: the initial class refined by each
/// policy in turn.
pub open spec fn cover_spec(pols: Seq<Seq<bool>>) -> Seq<ClassView>
    decreases pols.len(),
{
    if pols.len() == 0 {
        seq![(initial_class(), 0nat)]
    } else {
        refine(cover_spec(pols.drop_last()), pols.last())
    }
}

/// The values of a vector of classes.
pub open spec fn class_views(v: Seq<(Policy, u32)>) -> Seq<ClassView> {
    v.map_values(|e: (Policy, u32)| (e.0@, e.1 as nat))
}

/// Every class of the vector is a well-formed policy.
pub open spec fn classes_wf(v: Seq<(Policy, u32)>) -> bool {
    forall|m: int| 0 <= m < v.len() ==> (#[trigger] v[m]).0.wf()
}

// Given a list of policies, find a set of disjoint "covering"
// policies such that every policy in the input can be made as the
// union of some subset of the covering policies.
//
// Return a vector of (policy,count) tuples where each "count" is the
// number of input policies that use the covering policy.
pub fn find_cover(policies: &[Policy]) -> (r: Vec<(Policy, u32)>)
    requires
        all_wf(policies@),
        policies@.len() <= u32::MAX,
    ensures
        classes_wf(r@),
        class_views(r@) == cover_spec(policy_views(policies@)),
{
    let ghost pols = policy_views(policies@);
    let mut classes: Vec<(Policy, u32)> = Vec::new();
    let mut first = Policy::new(false);
    first.set_range(1, 65535, true);
    classes.push((first, 0u32));
    proof {
        assert(first@ =~= initial_class());
        assert(pols.take(0) =~= Seq::<Seq<bool>>::empty());
        assert(class_views(classes@) =~= cover_spec(pols.take(0)));
    }
    let mut k: usize = 0;
    while k < policies.len()
        invariant
            k <= policies@.len(),
            policies@.len() <= u32::MAX,
            pols == policy_views(policies@),
            all_wf(policies@),
            classes_wf(classes@),
            forall|m: int| 0 <= m < classes@.len() ==> (#[trigger] classes@[m]).1 <= k,
            class_views(classes@) == cover_spec(pols.take(k as int)),
        decreases policies@.len() - k,
    {
        let pol = &policies[k];
        let mut newclasses: Vec<(Policy, u32)> = Vec::new();
        let ghost old_classes = classes@;
        proof {
            assert(pol.wf());
            assert(class_views(old_classes).take(0) =~= Seq::<ClassView>::empty());
            assert(class_views(newclasses@) =~= refine(class_views(old_classes).take(0), pol@));
        }
        for item in iter: classes.into_iter()
            invariant
                iter.seq() == old_classes,
                pol.wf(),
                classes_wf(old_classes),
                forall|m: int| 0 <= m < old_classes.len() ==> (#[trigger] old_classes[m]).1 <= k,
                k < policies@.len(),
                policies@.len() <= u32::MAX,
                classes_wf(newclasses@),
                forall|m: int| 0 <= m < newclasses@.len() ==> (#[trigger] newclasses@[m]).1 <= k + 1,
                class_views(newclasses@) == refine(
                    class_views(old_classes).take(iter.index() as int),
                    pol@,
                ),
        {
            let ghost idx = iter.index();
            let ghost before = newclasses@;
            let (class, count) = item;
            proof {
                assert(old_classes[idx] == (class, count));
                assert(class.wf());
                let cv = class_views(old_classes);
                assert(cv.take(idx + 1).drop_last() =~= cv.take(idx));
                assert(cv.take(idx + 1).last() == (class@, count as nat));
            }
            if pol.contains(&class) {
                newclasses.push((class, count + 1));
            } else if pol.negation_contains(&class) {
                newclasses.push((class, count));
            } else {
                let not_pol = pol.negate();
                let c1 = class.intersect(pol);
                let c2 = class.intersect(&not_pol);
                newclasses.push((c1, count + 1));
                newclasses.push((c2, count));
            }
            proof {
                assert(class_views(newclasses@) =~= class_views(before) + refine_class(
                    (class@, count as nat),
                    pol@,
                ));
            }
        }
        proof {
            assert(class_views(old_classes).take(old_classes.len() as int) =~= class_views(
                old_classes,
            ));
            assert(pols.take(k + 1).drop_last() =~= pols.take(k as int));
            assert(pols.take(k + 1).last() == pol@);
        }
        classes = newclasses;
        k = k + 1;
    }
    proof {
        assert(pols.take(policies@.len() as int) =~= pols);
    }
    classes
}

/// Every policy has one entry per port.
pub open spec fn policies_sized(pols: Seq<Seq<bool>>) -> bool {
    forall|j: int| 0 <= j < pols.len() ==> (#[trigger] pols[j]).len() == N_PORTS
}

/// Which of the policies accept port `i`.
pub open spec fn port_sig(pols: Seq<Seq<bool>>, i: int) -> Seq<bool> {
    Seq::new(pols.len(), |j: int| pols[j][i])
}

/// Which of the policies accept every port of `c`.
pub open spec fn containing(pols: Seq<Seq<bool>>, c: Seq<bool>) -> Seq<bool> {
    Seq::new(pols.len(), |j: int| spec_contains(pols[j], c))
}

/// The number of policies that accept every port of `c`.
pub open spec fn num_containing(pols: Seq<Seq<bool>>, c: Seq<bool>) -> nat {
    count_true(containing(pols, c))
}

/// The classes are the nonempty sets of ports 1 to 65535 that no policy tells
/// apart: class `k` holds exactly the ports whose acceptance by the policies
/// is `sigs[k]`, every port 1 to 65535 lies in one, and the count of a class
/// is the number of policies that accept it.
pub open spec fn sig_cover(
    pols: Seq<Seq<bool>>,
    classes: Seq<ClassView>,
    sigs: Seq<Seq<bool>>,
) -> bool {
    &&& classes.len() == sigs.len()
    &&& forall|k: int|
        0 <= k < classes.len() ==> (#[trigger] classes[k]).0.len() == N_PORTS && sigs[k].len()
            == pols.len()
    &&& forall|k: int, i: int|
        0 <= k < classes.len() && 0 <= i < N_PORTS ==> ((#[trigger] classes[k].0[i]) <==> (1 <= i
            && port_sig(pols, i) == sigs[k]))
    &&& forall|k: int|
        #![trigger sigs[k]]
        0 <= k < classes.len() ==> exists|i: int|
            1 <= i < N_PORTS && #[trigger] port_sig(pols, i) == sigs[k]
    &&& forall|k: int| 0 <= k < classes.len() ==> (#[trigger] classes[k]).1 == count_true(sigs[k])
    &&& forall|k1: int, k2: int|
        0 <= k1 < sigs.len() && 0 <= k2 < sigs.len() && k1 != k2 ==> #[trigger] sigs[k1]
            != #[trigger] sigs[k2]
    &&& forall|i: int|
        #![trigger port_sig(pols, i)]
        1 <= i < N_PORTS ==> exists|k: int| 0 <= k < sigs.len() && port_sig(pols, i) == #[trigger] sigs[k]
}

proof fn lemma_port_sig_push(pols: Seq<Seq<bool>>, p: Seq<bool>, i: int)
    ensures
        port_sig(pols.push(p), i) == port_sig(pols, i).push(p[i]),
{
    assert(port_sig(pols.push(p), i) =~= port_sig(pols, i).push(p[i]));
}

proof fn lemma_count_push(s: Seq<bool>, b: bool)
    ensures
        count_true(s.push(b)) == count_true(s) + if b { 1nat } else { 0nat },
{
    assert(s.push(b).drop_last() =~= s);
}

proof fn lemma_push_eq(a: Seq<bool>, x: bool, b: Seq<bool>, y: bool)
    ensures
        (a.push(x) == b.push(y)) <==> (a == b && x == y),
{
    if a.push(x) == b.push(y) {
        assert(a.push(x).drop_last() =~= a);
        assert(b.push(y).drop_last() =~= b);
        assert(a.push(x)[a.len() as int] == x);
    }
}

/// The first `m` classes refined by `p`.
pub open spec fn refined(classes: Seq<ClassView>, m: int, p: Seq<bool>) -> Seq<ClassView> {
    refine(classes.take(m), p)
}

/// Refining the first `m` classes by `p`: every class that comes out holds
/// the ports of one signature extended by `p`, and the ports of the first `m`
/// classes all land in one.
proof fn lemma_refine_prefix(
    pols: Seq<Seq<bool>>,
    classes: Seq<ClassView>,
    sigs: Seq<Seq<bool>>,
    p: Seq<bool>,
    m: int,
) -> (sigs2: Seq<Seq<bool>>)
    requires
        sig_cover(pols, classes, sigs),
        p.len() == N_PORTS,
        0 <= m <= classes.len(),
    ensures
        refined(classes, m, p).len() == sigs2.len(),
        forall|k: int|
            0 <= k < refined(classes, m, p).len() ==> (#[trigger] refined(classes, m, p)[k]).0.len()
                == N_PORTS && sigs2[k].len() == pols.push(p).len(),
        forall|k: int, i: int|
            0 <= k < refined(classes, m, p).len() && 0 <= i < N_PORTS ==> ((
            #[trigger] refined(classes, m, p)[k].0[i]) <==> (1 <= i && port_sig(pols.push(p), i)
                == sigs2[k])),
        forall|k: int|
            #![trigger sigs2[k]]
            0 <= k < refined(classes, m, p).len() ==> exists|i: int|
                1 <= i < N_PORTS && #[trigger] port_sig(pols.push(p), i) == sigs2[k],
        forall|k: int|
            0 <= k < refined(classes, m, p).len() ==> (#[trigger] refined(classes, m, p)[k]).1
                == count_true(sigs2[k]),
        forall|k1: int, k2: int|
            0 <= k1 < sigs2.len() && 0 <= k2 < sigs2.len() && k1 != k2 ==> #[trigger] sigs2[k1]
                != #[trigger] sigs2[k2],
        forall|k: int, k0: int|
            0 <= k < sigs2.len() && m <= k0 < sigs.len() ==> #[trigger] sigs2[k].drop_last()
                != #[trigger] sigs[k0],
        forall|i: int, k0: int|
            0 <= i < N_PORTS && 0 <= k0 < m && #[trigger] classes[k0].0[i]
                ==> exists|k: int|
                0 <= k < sigs2.len() && port_sig(pols.push(p), i) == #[trigger] sigs2[k],
    decreases m,
{
    let pols2 = pols.push(p);
    if m == 0 {
        assert(classes.take(0) =~= Seq::<ClassView>::empty());
        Seq::empty()
    } else {
        let prev = lemma_refine_prefix(pols, classes, sigs, p, m - 1);
        assert(classes.take(m).drop_last() =~= classes.take(m - 1));
        let c = classes[m - 1];
        let sg = sigs[m - 1];
        let before = refine(classes.take(m - 1), p);
        let new_classes = refine_class(c, p);
        let out = refine(classes.take(m), p);
        assert(out == before + new_classes);
        let new_sigs: Seq<Seq<bool>> = if spec_contains(p, c.0) {
            seq![sg.push(true)]
        } else if spec_disjoint(p, c.0) {
            seq![sg.push(false)]
        } else {
            seq![sg.push(true), sg.push(false)]
        };
        let sigs2 = prev + new_sigs;
        assert(new_classes.len() == new_sigs.len());
        assert forall|i: int| 0 <= i < N_PORTS implies #[trigger] port_sig(pols2, i) == port_sig(
            pols,
            i,
        ).push(p[i]) by {
            lemma_port_sig_push(pols, p, i);
        }
        // The new classes: ports, witnesses, counts.
        assert forall|t: int| 0 <= t < new_classes.len() implies {
            &&& (#[trigger] new_classes[t]).0.len() == N_PORTS
            &&& new_sigs[t].len() == pols2.len()
            &&& forall|i: int|
                0 <= i < N_PORTS ==> (new_classes[t].0[i] <==> (1 <= i && port_sig(pols2, i)
                    == new_sigs[t]))
            &&& exists|i: int| 1 <= i < N_PORTS && #[trigger] port_sig(pols2, i) == new_sigs[t]
            &&& new_classes[t].1 == count_true(new_sigs[t])
            &&& new_sigs[t].drop_last() == sg
        } by {
            let side = new_sigs[t].last();
            assert(new_sigs[t] == sg.push(side));
            assert(sg.push(side).drop_last() =~= sg);
            lemma_count_push(sg, side);
            assert forall|i: int| 0 <= i < N_PORTS implies (new_classes[t].0[i] <==> (1 <= i
                && port_sig(pols2, i) == new_sigs[t])) by {
                lemma_push_eq(port_sig(pols, i), p[i], sg, side);
            }
            // a witness port
            if spec_contains(p, c.0) || spec_disjoint(p, c.0) {
                let i = choose|i: int| 1 <= i < N_PORTS && #[trigger] port_sig(pols, i) == sg;
                assert(c.0[i]);
                lemma_push_eq(port_sig(pols, i), p[i], sg, side);
                assert(port_sig(pols2, i) == new_sigs[t]);
            } else if t == 0 {
                let i = choose|i: int| 0 <= i < N_PORTS && !(p[i] && c.0[i]);
                assert(!spec_disjoint(p, c.0));
                let i = choose|i: int| 0 <= i < N_PORTS && (#[trigger] c.0[i] && p[i]);
                lemma_push_eq(port_sig(pols, i), p[i], sg, side);
                assert(port_sig(pols2, i) == new_sigs[t]);
            } else {
                assert(!spec_contains(p, c.0));
                let i = choose|i: int| 0 <= i < N_PORTS && !(#[trigger] c.0[i] ==> p[i]);
                lemma_push_eq(port_sig(pols, i), p[i], sg, side);
                assert(port_sig(pols2, i) == new_sigs[t]);
            }
        }
        assert forall|k: int| 0 <= k < out.len() implies (#[trigger] out[k]).0.len() == N_PORTS
            && sigs2[k].len() == pols2.len() by {
            if k >= before.len() {
                assert(out[k] == new_classes[k - before.len()]);
                assert(sigs2[k] == new_sigs[k - before.len()]);
            } else {
                assert(out[k] == before[k]);
                assert(sigs2[k] == prev[k]);
            }
        }
        assert forall|k: int, i: int|
            0 <= k < out.len() && 0 <= i < N_PORTS implies ((#[trigger] out[k].0[i]) <==> (1 <= i
                && port_sig(pols2, i) == sigs2[k])) by {
            if k >= before.len() {
                assert(out[k] == new_classes[k - before.len()]);
                assert(sigs2[k] == new_sigs[k - before.len()]);
            } else {
                assert(out[k] == before[k]);
                assert(sigs2[k] == prev[k]);
            }
        }
        assert forall|k: int|
            #![trigger sigs2[k]]
            0 <= k < out.len() implies exists|i: int|
            1 <= i < N_PORTS && #[trigger] port_sig(pols2, i) == sigs2[k] by {
            if k >= before.len() {
                assert(new_classes[k - before.len()].0.len() == N_PORTS);
                assert(sigs2[k] == new_sigs[k - before.len()]);
            } else {
                assert(sigs2[k] == prev[k]);
            }
        }
        assert forall|k: int| 0 <= k < out.len() implies (#[trigger] out[k]).1 == count_true(
            sigs2[k],
        ) by {
            if k >= before.len() {
                assert(out[k] == new_classes[k - before.len()]);
                assert(sigs2[k] == new_sigs[k - before.len()]);
            } else {
                assert(out[k] == before[k]);
                assert(sigs2[k] == prev[k]);
            }
        }
        assert forall|k: int, k0: int|
            0 <= k < sigs2.len() && m <= k0 < sigs.len() implies #[trigger] sigs2[k].drop_last()
                != #[trigger] sigs[k0] by {
            if k >= before.len() {
                assert(sigs2[k] == new_sigs[k - before.len()]);
                assert(sigs2[k].drop_last() == sigs[m - 1]);
            } else {
                assert(sigs2[k] == prev[k]);
                assert(prev[k].drop_last() != sigs[k0]);
            }
        }
        assert forall|k1: int, k2: int|
            0 <= k1 < sigs2.len() && 0 <= k2 < sigs2.len() && k1 != k2 implies #[trigger] sigs2[k1]
                != #[trigger] sigs2[k2] by {
            if k1 < before.len() && k2 < before.len() {
                assert(sigs2[k1] == prev[k1] && sigs2[k2] == prev[k2]);
            } else if k1 >= before.len() && k2 >= before.len() {
                let t1 = k1 - before.len();
                let t2 = k2 - before.len();
                assert(sigs2[k1] == new_sigs[t1] && sigs2[k2] == new_sigs[t2]);
                lemma_push_eq(sg, true, sg, false);
            } else {
                let (a, b) = if k1 < before.len() { (k1, k2) } else { (k2, k1) };
                assert(sigs2[a] == prev[a]);
                assert(prev[a].drop_last() != sigs[m - 1]);
                assert(sigs2[b] == new_sigs[b - before.len()]);
                assert(sigs2[b].drop_last() == sg);
            }
        }
        assert forall|i: int, k0: int|
            0 <= i < N_PORTS && 0 <= k0 < m && #[trigger] classes[k0].0[i] implies exists|k: int|
                0 <= k < sigs2.len() && port_sig(pols2, i) == #[trigger] sigs2[k] by {
            if k0 < m - 1 {
                let k = choose|k: int| 0 <= k < prev.len() && port_sig(pols2, i) == #[trigger] prev[k];
                assert(sigs2[k] == prev[k]);
            } else {
                assert(c.0[i]);
                let t: int = if spec_contains(p, c.0) || spec_disjoint(p, c.0) {
                    0
                } else if p[i] {
                    0
                } else {
                    1
                };
                assert(new_classes[t].0[i]);
                assert(port_sig(pols2, i) == new_sigs[t]);
                assert(sigs2[before.len() + t] == new_sigs[t]);
            }
        }
        sigs2
    }
}

/// The covering of any list of policies is the partition of ports 1 to 65535
/// by which policies accept them.
pub proof fn lemma_cover_sigs(pols: Seq<Seq<bool>>) -> (sigs: Seq<Seq<bool>>)
    requires
        policies_sized(pols),
    ensures
        sig_cover(pols, cover_spec(pols), sigs),
    decreases pols.len(),
{
    if pols.len() == 0 {
        let sigs: Seq<Seq<bool>> = seq![Seq::empty()];
        let classes = cover_spec(pols);
        assert(count_true(Seq::<bool>::empty()) == 0);
        assert forall|i: int| 0 <= i < N_PORTS implies #[trigger] port_sig(pols, i) == sigs[0] by {
            assert(port_sig(pols, i) =~= Seq::<bool>::empty());
        }
        assert(port_sig(pols, 1) == sigs[0]);
        assert forall|i: int|
            #![trigger port_sig(pols, i)]
            1 <= i < N_PORTS implies exists|k: int|
            0 <= k < sigs.len() && port_sig(pols, i) == #[trigger] sigs[k] by {
            assert(port_sig(pols, i) == sigs[0]);
        }
        sigs
    } else {
        let prev_pols = pols.drop_last();
        let p = pols.last();
        assert(policies_sized(prev_pols)) by {
            assert forall|j: int| 0 <= j < prev_pols.len() implies (#[trigger] prev_pols[j]).len()
                == N_PORTS by {
                assert(prev_pols[j] == pols[j]);
            }
        }
        let sigs = lemma_cover_sigs(prev_pols);
        let classes = cover_spec(prev_pols);
        assert(pols.len() - 1 < pols.len());
        assert(p.len() == N_PORTS) by {
            assert(pols[pols.len() - 1].len() == N_PORTS);
        }
        let sigs2 = lemma_refine_prefix(prev_pols, classes, sigs, p, classes.len() as int);
        assert(classes.take(classes.len() as int) =~= classes);
        assert(prev_pols.push(p) =~= pols);
        assert forall|i: int|
            #![trigger port_sig(pols, i)]
            1 <= i < N_PORTS implies exists|k: int|
            0 <= k < sigs2.len() && port_sig(pols, i) == #[trigger] sigs2[k] by {
            let k0 = choose|k0: int| 0 <= k0 < sigs.len() && port_sig(prev_pols, i) == #[trigger] sigs[k0];
            assert(classes[k0].0[i]);
        }
        sigs2
    }
}

/// The policies that accept the whole of a class are those its signature
/// names.
proof fn lemma_containing_is_sig(
    pols: Seq<Seq<bool>>,
    classes: Seq<ClassView>,
    sigs: Seq<Seq<bool>>,
    k: int,
)
    requires
        sig_cover(pols, classes, sigs),
        0 <= k < classes.len(),
    ensures
        containing(pols, classes[k].0) == sigs[k],
{
    let c = classes[k].0;
    let w = choose|i: int| 1 <= i < N_PORTS && #[trigger] port_sig(pols, i) == sigs[k];
    assert(c[w]);
    assert forall|j: int| 0 <= j < pols.len() implies #[trigger] containing(pols, c)[j] == sigs[k][j] by {
        if sigs[k][j] {
            assert forall|i: int| 0 <= i < N_PORTS && #[trigger] c[i] implies pols[j][i] by {
                assert(port_sig(pols, i)[j] == pols[j][i]);
            }
        } else {
            assert(port_sig(pols, w)[j] == pols[j][w]);
            assert(c[w] && !pols[j][w]);
        }
    }
    assert(containing(pols, c) =~= sigs[k]);
}

/// The classes of a covering hold only ports 1 to 65535 and are pairwise
/// disjoint.
pub proof fn lemma_cover_disjoint(pols: Seq<Seq<bool>>)
    requires
        policies_sized(pols),
    ensures
        forall|k: int|
            0 <= k < cover_spec(pols).len() ==> (#[trigger] cover_spec(pols)[k]).0.len() == N_PORTS
                && !cover_spec(pols)[k].0[0],
        forall|k1: int, k2: int, i: int|
            0 <= k1 < cover_spec(pols).len() && 0 <= k2 < cover_spec(pols).len() && k1 != k2 && 0
                <= i < N_PORTS ==> !(#[trigger] cover_spec(pols)[k1].0[i]
                && #[trigger] cover_spec(pols)[k2].0[i]),
{
    lemma_cover_sigs(pols);
}

/// Every port from 1 to 65535 lies in a class of the covering.
pub proof fn lemma_cover_covers(pols: Seq<Seq<bool>>, i: int)
    requires
        policies_sized(pols),
        1 <= i < N_PORTS,
    ensures
        exists|k: int| 0 <= k < cover_spec(pols).len() && #[trigger] cover_spec(pols)[k].0[i],
{
    let cs = cover_spec(pols);
    let sigs = lemma_cover_sigs(pols);
    let k = choose|k: int| 0 <= k < sigs.len() && port_sig(pols, i) == #[trigger] sigs[k];
    assert(cs[k].0[i]);
}

/// Every class of a covering holds at least one port.
pub proof fn lemma_cover_nonempty(pols: Seq<Seq<bool>>, k: int)
    requires
        policies_sized(pols),
        0 <= k < cover_spec(pols).len(),
    ensures
        exists|i: int| 0 <= i < N_PORTS && #[trigger] cover_spec(pols)[k].0[i],
{
    let cs = cover_spec(pols);
    let sigs = lemma_cover_sigs(pols);
    assert(sigs[k].len() == pols.len());
    let w = choose|i: int| 1 <= i < N_PORTS && #[trigger] port_sig(pols, i) == sigs[k];
    assert(cs[k].0[w]);
}

/// Each policy accepts either the whole of a class or none of it.
pub proof fn lemma_cover_refines(pols: Seq<Seq<bool>>)
    requires
        policies_sized(pols),
    ensures
        forall|j: int, k: int|
            0 <= j < pols.len() && 0 <= k < cover_spec(pols).len() ==> spec_contains(
                #[trigger] pols[j],
                #[trigger] cover_spec(pols)[k].0,
            ) || spec_disjoint(pols[j], cover_spec(pols)[k].0),
{
    let cs = cover_spec(pols);
    let sigs = lemma_cover_sigs(pols);
    assert forall|j: int, k: int|
        0 <= j < pols.len() && 0 <= k < cs.len() implies spec_contains(
            #[trigger] pols[j],
            #[trigger] cs[k].0,
        ) || spec_disjoint(pols[j], cs[k].0) by {
        lemma_containing_is_sig(pols, cs, sigs, k);
        assert(containing(pols, cs[k].0)[j] == sigs[k][j]);
        if !sigs[k][j] {
            assert forall|i: int| 0 <= i < N_PORTS implies !(#[trigger] cs[k].0[i] && pols[j][i]) by {
                if cs[k].0[i] {
                    assert(port_sig(pols, i)[j] == pols[j][i]);
                }
            }
        }
    }
}

/// On ports 1 to 65535 every policy is the union of the classes it accepts
/// whole.
pub proof fn lemma_cover_union(pols: Seq<Seq<bool>>)
    requires
        policies_sized(pols),
    ensures
        forall|j: int, i: int|
            0 <= j < pols.len() && 1 <= i < N_PORTS ==> (#[trigger] pols[j][i] <==> exists|k: int|
                0 <= k < cover_spec(pols).len() && #[trigger] cover_spec(pols)[k].0[i]
                    && spec_contains(pols[j], cover_spec(pols)[k].0)),
{
    let cs = cover_spec(pols);
    let sigs = lemma_cover_sigs(pols);
    assert forall|j: int, i: int| 0 <= j < pols.len() && 1 <= i < N_PORTS implies (
    #[trigger] pols[j][i] <==> exists|k: int|
        0 <= k < cs.len() && #[trigger] cs[k].0[i] && spec_contains(pols[j], cs[k].0)) by {
        let k = choose|k: int| 0 <= k < sigs.len() && port_sig(pols, i) == #[trigger] sigs[k];
        assert(cs[k].0[i]);
        lemma_containing_is_sig(pols, cs, sigs, k);
        assert(containing(pols, cs[k].0)[j] == sigs[k][j]);
        assert(port_sig(pols, i)[j] == pols[j][i]);
        if pols[j][i] {
            assert(spec_contains(pols[j], cs[k].0));
        }
    }
}

/// The count of each class is the number of policies that accept all of it.
pub proof fn lemma_cover_counts(pols: Seq<Seq<bool>>)
    requires
        policies_sized(pols),
    ensures
        forall|k: int|
            0 <= k < cover_spec(pols).len() ==> (#[trigger] cover_spec(pols)[k]).1 == num_containing(
                pols,
                cover_spec(pols)[k].0,
            ),
{
    let cs = cover_spec(pols);
    let sigs = lemma_cover_sigs(pols);
    assert forall|k: int| 0 <= k < cs.len() implies (#[trigger] cs[k]).1 == num_containing(
        pols,
        cs[k].0,
    ) by {
        lemma_containing_is_sig(pols, cs, sigs, k);
    }
}

/// No coarser covering exists: for any two classes some policy accepts the
/// whole of one and none of the other.
pub proof fn lemma_cover_coarsest(pols: Seq<Seq<bool>>)
    requires
        policies_sized(pols),
    ensures
        forall|k1: int, k2: int|
            0 <= k1 < cover_spec(pols).len() && 0 <= k2 < cover_spec(pols).len() && k1 != k2
                ==> containing(pols, #[trigger] cover_spec(pols)[k1].0) != containing(
                pols,
                #[trigger] cover_spec(pols)[k2].0,
            ),
{
    let cs = cover_spec(pols);
    let sigs = lemma_cover_sigs(pols);
    assert forall|k1: int, k2: int|
        0 <= k1 < cs.len() && 0 <= k2 < cs.len() && k1 != k2 implies containing(
        pols,
        #[trigger] cs[k1].0,
    ) != containing(pols, #[trigger] cs[k2].0) by {
        lemma_containing_is_sig(pols, cs, sigs, k1);
        lemma_containing_is_sig(pols, cs, sigs, k2);
    }
}

} // verus!
