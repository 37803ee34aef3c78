//! An exit policy: the set of TCP ports that a relay accepts, one bit per port.

use vstd::prelude::*;
use crate::bitarray::{BitArray, spec_ceil_div};
use crate::bits::{count_true, lemma_count_le_len};

verus! {

/// The number of TCP ports, port 0 included.
pub const N_PORTS: usize = 65536;

/// A Policy is set of accepted ports, implemented as a bitarray.
#[derive(Clone, Hash, PartialEq, Eq)]
pub struct Policy {
    pub(crate) allow: BitArray,
}

impl View for Policy {
    type V = Seq<bool>;

    /// Entry `p` says whether port `p` is accepted.
    closed spec fn view(&self) -> Seq<bool> {
        self.allow@
    }
}

/// Every port that `b` accepts, `a` accepts too.
pub open spec fn spec_contains(a: Seq<bool>, b: Seq<bool>) -> bool {
    forall|i: int| 0 <= i < N_PORTS ==> #[trigger] b[i] ==> a[i]
}

/// No port is accepted by both `a` and `b`.
pub open spec fn spec_disjoint(a: Seq<bool>, b: Seq<bool>) -> bool {
    forall|i: int| 0 <= i < N_PORTS ==> !(#[trigger] b[i] && a[i])
}

/// The ports accepted by both.
pub open spec fn spec_intersect(a: Seq<bool>, b: Seq<bool>) -> Seq<bool> {
    Seq::new(N_PORTS as nat, |i: int| a[i] && b[i])
}

/// The ports accepted by either.
pub open spec fn spec_union(a: Seq<bool>, b: Seq<bool>) -> Seq<bool> {
    Seq::new(N_PORTS as nat, |i: int| a[i] || b[i])
}

/// The ports not accepted.
pub open spec fn spec_negate(a: Seq<bool>) -> Seq<bool> {
    Seq::new(N_PORTS as nat, |i: int| !a[i])
}

/// The policy that gives every port the value `val`.
pub open spec fn spec_uniform(val: bool) -> Seq<bool> {
    Seq::new(N_PORTS as nat, |i: int| val)
}

/// The views of a sequence of policies.
pub open spec fn policy_views(ps: Seq<Policy>) -> Seq<Seq<bool>> {
    ps.map_values(|p: Policy| p@)
}

/// Every policy of the sequence is well formed.
pub open spec fn all_wf(ps: Seq<Policy>) -> bool {
    forall|k: int| 0 <= k < ps.len() ==> (#[trigger] ps[k]).wf()
}

impl Policy {
    /// The array holds exactly one bit per port.
    pub closed spec fn wf(&self) -> bool {
        &&& self.allow.wf()
        &&& self.allow.size() == N_PORTS
    }

    /// A well-formed policy has one entry per port.
    pub proof fn lemma_len(&self)
        requires
            self.wf(),
        ensures
            self@.len() == N_PORTS,
    {
        self.allow.lemma_view_len();
        assert(spec_ceil_div(N_PORTS as int, 64) == 1024);
    }

    /// Make a new policy whose default value for every port is 'val'
    pub fn new(val: bool) -> (r: Policy)
        ensures
            r.wf(),
            r@ == spec_uniform(val),
    {
        let allow = BitArray::new(N_PORTS, val);
        proof {
            assert(spec_ceil_div(N_PORTS as int, 64) == 1024);
        }
        Policy { allow }
    }

    /// Set the status for ports between lo and hi inclusive to 'val'.
    /// Clips 'lo' and 'hi' so that they are in range and port 0 is
    /// ignored.
    pub fn set_range(&mut self, lo: u16, hi: u16, val: bool)
        requires
            old(self).wf(),
        ensures
            final(self).wf(),
            final(self)@ == Seq::new(
                N_PORTS as nat,
                |i: int|
                    if (if lo < 1 { 1 } else { lo as int }) <= i <= hi as int {
                        val
                    } else {
                        old(self)@[i]
                    },
            ),
    {
        proof {
            self.lemma_len();
        }
        let mut lo = lo;
        let mut hi = hi;
        if lo < 1 {
            lo = 1;
        }
        if lo as usize >= N_PORTS {
            return;
        }
        if hi as usize >= N_PORTS {
            hi = (N_PORTS - 1) as u16;
        }
        self.allow.set_range(lo as usize, hi as usize, val);
        proof {
            self.lemma_len();
        }
    }

    /// Whether 'port' is accepted.
    pub fn allows(&self, port: u16) -> (r: bool)
        requires
            self.wf(),
        ensures
            r == self@[port as int],
    {
        self.allow.is_set(port as usize)
    }

    /// Whether every port that 'p' accepts is accepted here.
    pub fn contains(&self, p: &Policy) -> (r: bool)
        requires
            self.wf(),
            p.wf(),
        ensures
            r == spec_contains(self@, p@),
    {
        proof {
            self.lemma_len();
            p.lemma_len();
        }
        self.allow.contains(&p.allow)
    }

    /// Whether no port is accepted both here and by 'p'.
    pub fn negation_contains(&self, p: &Policy) -> (r: bool)
        requires
            self.wf(),
            p.wf(),
        ensures
            r == spec_disjoint(self@, p@),
    {
        proof {
            self.lemma_len();
            p.lemma_len();
        }
        self.allow.negation_contains(&p.allow)
    }

    /// The policy that accepts exactly the ports this one does not.
    pub fn negate(&self) -> (r: Policy)
        requires
            self.wf(),
        ensures
            r.wf(),
            r@ == spec_negate(self@),
    {
        proof {
            self.lemma_len();
        }
        let r = Policy { allow: self.allow.negate() };
        proof {
            r.lemma_len();
            assert(r@ =~= spec_negate(self@));
        }
        r
    }

    /// The policy that accepts the ports that both accept.
    pub fn intersect(&self, p: &Policy) -> (r: Policy)
        requires
            self.wf(),
            p.wf(),
        ensures
            r.wf(),
            r@ == spec_intersect(self@, p@),
    {
        proof {
            self.lemma_len();
        }
        let r = Policy { allow: self.allow.intersect(&p.allow) };
        proof {
            r.lemma_len();
            assert(r@ =~= spec_intersect(self@, p@));
        }
        r
    }

    /// The number of accepted ports.
    pub fn port_count(&self) -> (r: u32)
        requires
            self.wf(),
        ensures
            r == count_true(self@),
            r <= N_PORTS,
    {
        proof {
            self.lemma_len();
            lemma_count_le_len(self@);
        }
        self.allow.count()
    }

    /// The policy that accepts the ports that either accepts.
    pub fn union(&self, p: &Policy) -> (r: Policy)
        requires
            self.wf(),
            p.wf(),
        ensures
            r.wf(),
            r@ == spec_union(self@, p@),
    {
        proof {
            self.lemma_len();
        }
        let r = Policy { allow: self.allow.union(&p.allow) };
        proof {
            r.lemma_len();
            assert(r@ =~= spec_union(self@, p@));
        }
        r
    }
}

impl Policy {
    /// Two policies are equal when they accept the same ports.
    pub fn equals(&self, p: &Policy) -> (r: bool)
        requires
            self.wf(),
            p.wf(),
        ensures
            r == (self@ == p@),
    {
        self.allow.equals(&p.allow)
    }
}

impl Default for Policy {
    fn default() -> (r: Self)
        ensures
            r.wf(),
            r@ == spec_uniform(false),
    {
        Policy::new(false)
    }
}

} // verus!
