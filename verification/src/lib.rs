//! A load-balancing endpoint pool that dispatches requests using the
//! power-of-two-choices algorithm.
//!
//! The pool keeps a registry mapping endpoint addresses to the target
//! descriptors they were built from, a readiness cache that partitions the
//! live endpoint services into *pending* and *ready* sequences, and a
//! reserved selection that binds a successful readiness signal to the
//! subsequent dispatch.

use vstd::prelude::*;

pub mod cache;
pub mod metrics;
pub mod pool;
pub mod rng;

verus! {

/// A network address (host and port) uniquely identifying an endpoint. The
/// host is wide enough to carry a full IPv6 address; an IPv4 host sits in
/// the low 32 bits.
#[derive(Clone, Copy, PartialEq, Eq, Structural, Debug, Hash)]
pub struct Addr {
    pub ip: u128,
    pub port: u16,
}

impl Addr {
    pub fn new(ip: u128, port: u16) -> (r: Addr)
        ensures
            r == (Addr { ip, port }),
    {
        Addr { ip, port }
    }
}

/// A service-discovery update. A target descriptor is an opaque,
/// equality-comparable value carried as a plain word.
pub enum Update {
    /// Replace the current membership with exactly this set.
    Reset(Vec<(Addr, u64)>),
    /// Union this set into the current membership, updating targets for
    /// shared addresses.
    Add(Vec<(Addr, u64)>),
    /// Delete these addresses from the current membership.
    Remove(Vec<Addr>),
    /// Empty the pool.
    DoesNotExist,
}

/// The addresses of an association list, in order.
pub open spec fn keys(s: Seq<(Addr, u64)>) -> Seq<Addr> {
    s.map_values(|p: (Addr, u64)| p.0)
}

/// The target recorded for `a`, later entries overwriting earlier ones.
pub open spec fn lookup(s: Seq<(Addr, u64)>, a: Addr) -> Option<u64>
    decreases s.len(),
{
    if s.len() == 0 {
        None
    } else if s.last().0 == a {
        Some(s.last().1)
    } else {
        lookup(s.drop_last(), a)
    }
}

/// `lookup` finds a target exactly for the recorded addresses.
pub proof fn lemma_lookup_some_iff(s: Seq<(Addr, u64)>, a: Addr)
    ensures
        lookup(s, a) is Some <==> keys(s).contains(a),
    decreases s.len(),
{
    if s.len() == 0 {
        assert(!keys(s).contains(a));
    } else if s.last().0 == a {
        assert(keys(s)[s.len() - 1] == a);
    } else {
        lemma_lookup_some_iff(s.drop_last(), a);
        assert(keys(s.drop_last()) =~= keys(s).drop_last());
        if keys(s).contains(a) {
            let i = choose|i: int| 0 <= i < keys(s).len() && keys(s)[i] == a;
            assert(i < s.len() - 1);
            assert(keys(s.drop_last())[i] == a);
        }
        if keys(s.drop_last()).contains(a) {
            let i = choose|i: int| 0 <= i < keys(s.drop_last()).len() && keys(s.drop_last())[i] == a;
            assert(keys(s)[i] == a);
        }
    }
}

/// With unique addresses, `lookup` returns the one recorded pair.
pub proof fn lemma_lookup_at_key(s: Seq<(Addr, u64)>, i: int)
    requires
        keys(s).no_duplicates(),
        0 <= i < s.len(),
    ensures
        lookup(s, s[i].0) == Some(s[i].1),
    decreases s.len(),
{
    assert(keys(s)[i] == s[i].0);
    if i == s.len() - 1 {
    } else {
        assert(keys(s)[s.len() - 1] == s.last().0);
        assert(s.last().0 != s[i].0);
        assert(keys(s.drop_last()) =~= keys(s).drop_last());
        assert(keys(s.drop_last()).no_duplicates());
        assert(s.drop_last()[i] == s[i]);
        lemma_lookup_at_key(s.drop_last(), i);
    }
}

/// `lookup` returns the value of the last entry recorded for an address.
pub proof fn lemma_lookup_last_occurrence(s: Seq<(Addr, u64)>, i: int)
    requires
        0 <= i < s.len(),
        forall|j: int| i < j < s.len() ==> s[j].0 != s[i].0,
    ensures
        lookup(s, s[i].0) == Some(s[i].1),
    decreases s.len(),
{
    if i == s.len() - 1 {
    } else {
        assert(s.last().0 != s[i].0);
        assert(s.drop_last()[i] == s[i]);
        lemma_lookup_last_occurrence(s.drop_last(), i);
    }
}

} // verus!
