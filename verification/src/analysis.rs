//! Counting, per port, the weight of the policies that accept it, and
//! merging covering sets greedily.

use vstd::prelude::*;
use crate::policy::{Policy, N_PORTS};
use crate::bits::count_true;

verus! {

/// The total weight of the policies that accept port `port`.
pub open spec fn weighted_count(pols: Seq<Seq<bool>>, ws: Seq<u32>, port: int) -> int
    decreases pols.len(),
{
    if pols.len() == 0 || ws.len() < pols.len() {
        0
    } else {
        weighted_count(pols.drop_last(), ws.take(pols.len() - 1), port) + if pols.last()[port] {
            ws[pols.len() - 1] as int
        } else {
            0
        }
    }
}

/// The policies of weighted pairs.
pub open spec fn pair_policies(wp: Seq<(&Policy, u32)>) -> Seq<Seq<bool>> {
    wp.map_values(|e: (&Policy, u32)| e.0@)
}

/// The weights of weighted pairs.
pub open spec fn pair_weights(wp: Seq<(&Policy, u32)>) -> Seq<u32> {
    wp.map_values(|e: (&Policy, u32)| e.1)
}

proof fn lemma_weighted_count_step(pols: Seq<Seq<bool>>, ws: Seq<u32>, k: int, port: int)
    requires
        0 <= k < pols.len(),
        pols.len() == ws.len(),
    ensures
        weighted_count(pols.take(k + 1), ws.take(k + 1), port) == weighted_count(
            pols.take(k),
            ws.take(k),
            port,
        ) + if pols[k][port] {
            ws[k] as int
        } else {
            0
        },
{
    assert(pols.take(k + 1).drop_last() =~= pols.take(k));
    assert(ws.take(k + 1).take(k) =~= ws.take(k));
}

proof fn lemma_weighted_count_mono(pols: Seq<Seq<bool>>, ws: Seq<u32>, k: int, port: int)
    requires
        0 <= k <= pols.len(),
        pols.len() == ws.len(),
    ensures
        0 <= weighted_count(pols.take(k), ws.take(k), port) <= weighted_count(pols, ws, port),
    decreases pols.len() - k,
{
    if k < pols.len() {
        lemma_weighted_count_step(pols, ws, k, port);
        lemma_weighted_count_mono(pols, ws, k + 1, port);
        lemma_weighted_count_nonneg(pols.take(k), ws.take(k), port);
    } else {
        assert(pols.take(k) =~= pols);
        assert(ws.take(k) =~= ws);
        lemma_weighted_count_nonneg(pols, ws, port);
    }
}

proof fn lemma_weighted_count_nonneg(pols: Seq<Seq<bool>>, ws: Seq<u32>, port: int)
    ensures
        weighted_count(pols, ws, port) >= 0,
    decreases pols.len(),
{
    if pols.len() > 0 && ws.len() >= pols.len() {
        lemma_weighted_count_nonneg(pols.drop_last(), ws.take(pols.len() - 1), port);
    }
}

/// For each port, the total weight of the policies that accept it.
pub fn get_portcount(weighted_policies: &[(&Policy, u32)]) -> (r: Vec<u32>)
    requires
        forall|k: int| 0 <= k < weighted_policies@.len() ==> (#[trigger] weighted_policies@[k]).0.wf(),
        forall|port: int|
            0 <= port < N_PORTS ==> #[trigger] weighted_count(
                pair_policies(weighted_policies@),
                pair_weights(weighted_policies@),
                port,
            ) <= u32::MAX,
    ensures
        r@.len() == N_PORTS,
        forall|port: int|
            0 <= port < N_PORTS ==> #[trigger] r@[port] == weighted_count(
                pair_policies(weighted_policies@),
                pair_weights(weighted_policies@),
                port,
            ),
{
    let ghost pols = pair_policies(weighted_policies@);
    let ghost ws = pair_weights(weighted_policies@);
    let mut portcount: Vec<u32> = Vec::new();
    portcount.resize(N_PORTS, 0u32);
    proof {
        assert(pols.take(0) =~= Seq::<Seq<bool>>::empty());
        assert(ws.take(0) =~= Seq::<u32>::empty());
    }
    let mut k: usize = 0;
    while k < weighted_policies.len()
        invariant
            k <= weighted_policies@.len(),
            pols == pair_policies(weighted_policies@),
            ws == pair_weights(weighted_policies@),
            forall|j: int| 0 <= j < weighted_policies@.len() ==> (#[trigger] weighted_policies@[j]).0.wf(),
            forall|port: int| 0 <= port < N_PORTS ==> #[trigger] weighted_count(pols, ws, port) <= u32::MAX,
            portcount@.len() == N_PORTS,
            forall|port: int|
                0 <= port < N_PORTS ==> #[trigger] portcount@[port] == weighted_count(
                    pols.take(k as int),
                    ws.take(k as int),
                    port,
                ),
        decreases weighted_policies@.len() - k,
    {
        let (p, w) = weighted_policies[k];
        let mut portno: usize = 0;
        while portno < N_PORTS
            invariant
                k < weighted_policies@.len(),
                portno <= N_PORTS,
                p.wf(),
                p@ == pols[k as int],
                w == ws[k as int],
                pols == pair_policies(weighted_policies@),
                ws == pair_weights(weighted_policies@),
                forall|port: int| 0 <= port < N_PORTS ==> #[trigger] weighted_count(pols, ws, port) <= u32::MAX,
                portcount@.len() == N_PORTS,
                forall|port: int|
                    0 <= port < portno ==> #[trigger] portcount@[port] == weighted_count(
                        pols.take(k + 1),
                        ws.take(k + 1),
                        port,
                    ),
                forall|port: int|
                    portno <= port < N_PORTS ==> #[trigger] portcount@[port] == weighted_count(
                        pols.take(k as int),
                        ws.take(k as int),
                        port,
                    ),
            decreases N_PORTS - portno,
        {
            proof {
                lemma_weighted_count_step(pols, ws, k as int, portno as int);
                lemma_weighted_count_mono(pols, ws, k + 1, portno as int);
                assert(weighted_count(pols, ws, portno as int) <= u32::MAX);
            }
            if p.allows(portno as u16) {
                let v = portcount[portno];
                portcount.set(portno, v + w);
            }
            portno = portno + 1;
        }
        k = k + 1;
    }
    proof {
        assert(pols.take(weighted_policies@.len() as int) =~= pols);
        assert(ws.take(weighted_policies@.len() as int) =~= ws);
    }
    portcount
}

/// The number of policies that accept port `port`.
pub open spec fn accepting_count(pols: Seq<Seq<bool>>, port: int) -> nat {
    count_true(Seq::new(pols.len(), |j: int| pols[j][port]))
}

/// With every weight 1, the weighted count is the number of policies that
/// accept the port.
pub proof fn lemma_weighted_count_ones(pols: Seq<Seq<bool>>, ws: Seq<u32>, port: int)
    requires
        ws.len() == pols.len(),
        forall|j: int| 0 <= j < ws.len() ==> #[trigger] ws[j] == 1,
    ensures
        weighted_count(pols, ws, port) == accepting_count(pols, port),
    decreases pols.len(),
{
    if pols.len() > 0 {
        let n = pols.len() - 1;
        assert forall|j: int| 0 <= j < n implies #[trigger] ws.take(n)[j] == 1 by {
            assert(ws.take(n)[j] == ws[j]);
        }
        lemma_weighted_count_ones(pols.drop_last(), ws.take(n), port);
        let col = Seq::new(pols.len(), |j: int| pols[j][port]);
        assert(col.drop_last() =~= Seq::new(pols.drop_last().len(), |j: int| pols.drop_last()[j][port]));
        assert(ws[n] == 1);
    }
}

/// When at most the policy `k` accepts the port, the weighted count is its
/// weight (or nothing, when it does not accept the port either).
pub proof fn lemma_weighted_count_single(pols: Seq<Seq<bool>>, ws: Seq<u32>, port: int, k: int)
    requires
        ws.len() == pols.len(),
        0 <= k < pols.len(),
        forall|m: int| 0 <= m < pols.len() && m != k ==> !(#[trigger] pols[m])[port],
    ensures
        weighted_count(pols, ws, port) == if pols[k][port] {
            ws[k] as int
        } else {
            0
        },
    decreases pols.len(),
{
    let n = pols.len() - 1;
    if k == n {
        lemma_weighted_count_none(pols.drop_last(), ws.take(n), port);
    } else {
        assert forall|m: int| 0 <= m < n && m != k implies !(#[trigger] pols.drop_last()[m])[port] by {
            assert(pols.drop_last()[m] == pols[m]);
        }
        lemma_weighted_count_single(pols.drop_last(), ws.take(n), port, k);
        assert(!pols[n][port]);
    }
}

/// When no policy accepts the port, the weighted count is nothing.
pub proof fn lemma_weighted_count_none(pols: Seq<Seq<bool>>, ws: Seq<u32>, port: int)
    requires
        ws.len() == pols.len(),
        forall|m: int| 0 <= m < pols.len() ==> !(#[trigger] pols[m])[port],
    ensures
        weighted_count(pols, ws, port) == 0,
    decreases pols.len(),
{
    if pols.len() > 0 {
        let n = pols.len() - 1;
        assert forall|m: int| 0 <= m < n implies !(#[trigger] pols.drop_last()[m])[port] by {
            assert(pols.drop_last()[m] == pols[m]);
        }
        lemma_weighted_count_none(pols.drop_last(), ws.take(n), port);
        assert(!pols[n][port]);
    }
}

} // verus!
