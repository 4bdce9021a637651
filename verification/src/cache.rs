//! The readiness cache: owns the endpoint services and partitions them into
//! a *pending* and a *ready* sequence, keyed by address.
//!
//! An address appears in at most one of the two sequences. Ready indices are
//! stable between mutations of the ready sequence; any mutation invalidates
//! outstanding indices.

use vstd::prelude::*;
use crate::Addr;

verus! {

/// The outcome of one readiness probe of an endpoint service.
pub enum Probe<F> {
    /// The endpoint accepts one request now.
    Ready,
    /// The endpoint is not ready yet; it has registered a wake-up.
    Pending,
    /// The endpoint failed and must be dropped.
    Failed(F),
}

/// An endpoint service: a handle that reports its own readiness, exposes a
/// totally ordered load sample, and dispatches one request per readiness.
/// The embedding program implements it over its transport.
pub trait Endpoint: Sized {
    /// The request type the endpoint accepts.
    type Req;

    /// The in-flight response handed back by a dispatch; the pool does not
    /// observe it.
    type Fut;

    /// The endpoint's own error type.
    type Error;

    /// A non-blocking readiness probe; a pending endpoint registers a
    /// wake-up with its own polling context.
    fn probe(&mut self) -> Probe<Self::Error>;

    /// The current load sample; lower means less loaded.
    fn load(&self) -> u64;

    /// Dispatches one request; the endpoint owes one readiness per dispatch.
    fn dispatch(&mut self, req: Self::Req) -> Self::Fut;
}

/// A factory turning an address and a target descriptor into a live
/// endpoint service.
pub trait NewEndpoint<E> {
    fn new_endpoint(&mut self, addr: Addr, target: u64) -> E;
}

/// The result of one pass over the pending partition.
pub enum PollStatus<F> {
    /// The pending partition is empty after this pass.
    Ready,
    /// Some endpoints are still pending.
    Pending,
    /// The named endpoint failed and was removed.
    Failed(Addr, F),
}

/// `s` with the one occurrence of `a` removed, if there is one.
pub open spec fn remove_addr(s: Seq<Addr>, a: Addr) -> Seq<Addr> {
    if s.contains(a) {
        s.remove(s.index_of(a))
    } else {
        s
    }
}

/// Removing an index preserves distinctness and drops exactly that element.
pub proof fn lemma_remove_keeps_distinct(s: Seq<Addr>, i: int)
    requires
        s.no_duplicates(),
        0 <= i < s.len(),
    ensures
        s.remove(i).no_duplicates(),
        forall|a: Addr| #[trigger] s.remove(i).contains(a) <==> (s.contains(a) && a != s[i]),
{
    s.remove_ensures(i);
    assert forall|a: Addr| #[trigger] s.remove(i).contains(a) implies (s.contains(a) && a != s[i]) by {
        let k = choose|k: int| 0 <= k < s.remove(i).len() && s.remove(i)[k] == a;
        if k < i {
            assert(s[k] == a);
        } else {
            assert(s[k + 1] == a);
        }
    }
    assert forall|a: Addr| s.contains(a) && a != s[i] implies #[trigger] s.remove(i).contains(a) by {
        let k = choose|k: int| 0 <= k < s.len() && s[k] == a;
        if k < i {
            assert(s.remove(i)[k] == a);
        } else {
            assert(k > i);
            assert(s.remove(i)[k - 1] == a);
        }
    }
}

/// With unique elements, the position of an element is its `index_of`.
pub proof fn lemma_index_of_unique(s: Seq<Addr>, i: int)
    requires
        s.no_duplicates(),
        0 <= i < s.len(),
    ensures
        s.contains(s[i]),
        s.index_of(s[i]) == i,
{
    assert(s.contains(s[i]));
    let j = s.index_of(s[i]);
    assert(s[j] == s[i]);
}

/// Appending a fresh element preserves distinctness and adds exactly it.
pub proof fn lemma_push_distinct(s: Seq<Addr>, a: Addr)
    requires
        s.no_duplicates(),
        !s.contains(a),
    ensures
        s.push(a).no_duplicates(),
        forall|x: Addr| #[trigger] s.push(a).contains(x) <==> (s.contains(x) || x == a),
{
    assert forall|x: Addr| #[trigger] s.push(a).contains(x) implies (s.contains(x) || x == a) by {
        let k = choose|k: int| 0 <= k < s.push(a).len() && s.push(a)[k] == x;
        if k < s.len() {
            assert(s[k] == x);
        }
    }
    assert forall|x: Addr| (s.contains(x) || x == a) implies #[trigger] s.push(a).contains(x) by {
        if x == a {
            assert(s.push(a)[s.len() as int] == x);
        } else {
            let k = choose|k: int| 0 <= k < s.len() && s[k] == x;
            assert(s.push(a)[k] == x);
        }
    }
    assert forall|i: int, j: int|
        0 <= i < s.push(a).len() && 0 <= j < s.push(a).len() && i != j implies s.push(a)[i]
        != s.push(a)[j] by {
        if i < s.len() && j < s.len() {
        } else if i < s.len() && j == s.len() {
            if s[i] == a {
                assert(s.contains(a));
            }
        } else if j < s.len() && i == s.len() {
            if s[j] == a {
                assert(s.contains(a));
            }
        }
    }
}

/// `remove_addr` preserves distinctness and removes exactly `a`.
pub proof fn lemma_remove_addr(s: Seq<Addr>, a: Addr)
    requires
        s.no_duplicates(),
    ensures
        remove_addr(s, a).no_duplicates(),
        !remove_addr(s, a).contains(a),
        forall|x: Addr| x != a ==> (#[trigger] remove_addr(s, a).contains(x) <==> s.contains(x)),
        !s.contains(a) ==> remove_addr(s, a) == s,
{
    if s.contains(a) {
        let i = s.index_of(a);
        assert(s[i] == a);
        lemma_remove_keeps_distinct(s, i);
    }
}

/// Looks for an address among the keys of an association vector.
pub(crate) fn position<E>(v: &Vec<(Addr, E)>, addr: Addr) -> (r: Option<usize>)
    ensures
        match r {
            Some(i) => i < v@.len() && v@[i as int].0 == addr,
            None => forall|k: int| 0 <= k < v@.len() ==> v@[k].0 != addr,
        },
{
    let mut i: usize = 0;
    while i < v.len()
        invariant
            i <= v@.len(),
            forall|k: int| 0 <= k < i ==> v@[k].0 != addr,
        decreases v@.len() - i,
    {
        if v[i].0 == addr {
            return Some(i);
        }
        i = i + 1;
    }
    None
}

/// The keyed collection of endpoint services, split into the pending and the
/// ready partition.
pub struct ReadyCache<E> {
    pending: Vec<(Addr, E)>,
    ready: Vec<(Addr, E)>,
}

impl<E: Endpoint> ReadyCache<E> {
    /// The addresses of the pending partition, in order.
    pub closed spec fn pending_addrs(&self) -> Seq<Addr> {
        self.pending@.map_values(|p: (Addr, E)| p.0)
    }

    /// The addresses of the ready partition, in order.
    pub closed spec fn ready_addrs(&self) -> Seq<Addr> {
        self.ready@.map_values(|p: (Addr, E)| p.0)
    }

    /// The address is in one of the two partitions.
    pub open spec fn contains_addr(&self, a: Addr) -> bool {
        self.pending_addrs().contains(a) || self.ready_addrs().contains(a)
    }

    /// Each address appears in at most one partition, at most once.
    pub open spec fn wf(&self) -> bool {
        &&& self.pending_addrs().no_duplicates()
        &&& self.ready_addrs().no_duplicates()
        &&& forall|a: Addr|
            !(#[trigger] self.pending_addrs().contains(a) && self.ready_addrs().contains(a))
    }

    pub fn new() -> (r: Self)
        ensures
            r.wf(),
            r.pending_addrs() == Seq::<Addr>::empty(),
            r.ready_addrs() == Seq::<Addr>::empty(),
    {
        let r = ReadyCache { pending: Vec::new(), ready: Vec::new() };
        proof {
            assert(r.pending_addrs() =~= Seq::<Addr>::empty());
            assert(r.ready_addrs() =~= Seq::<Addr>::empty());
        }
        r
    }

    pub fn pending_len(&self) -> (r: usize)
        ensures
            r == self.pending_addrs().len(),
    {
        self.pending.len()
    }

    pub fn ready_len(&self) -> (r: usize)
        ensures
            r == self.ready_addrs().len(),
    {
        self.ready.len()
    }

    /// Whether either partition holds the address.
    pub fn contains(&self, addr: Addr) -> (r: bool)
        ensures
            r == self.contains_addr(addr),
    {
        let in_pending = match position(&self.pending, addr) {
            Some(i) => {
                proof {
                    assert(self.pending_addrs()[i as int] == addr);
                }
                true
            },
            None => false,
        };
        if in_pending {
            return true;
        }
        match position(&self.ready, addr) {
            Some(i) => {
                proof {
                    assert(self.ready_addrs()[i as int] == addr);
                }
                true
            },
            None => false,
        }
    }

    /// The address of the ready entry at `index`.
    pub fn ready_addr(&self, index: usize) -> (r: Addr)
        requires
            index < self.ready_addrs().len(),
        ensures
            r == self.ready_addrs()[index as int],
    {
        self.ready[index].0
    }

    /// The load sample of the ready entry at `index`, read without mutation.
    pub fn get_ready_load(&self, index: usize) -> (r: u64)
        requires
            index < self.ready_addrs().len(),
    {
        self.ready[index].1.load()
    }

    /// Removes `addr` from either partition, dropping its service; reports
    /// whether it was present.
    pub fn evict(&mut self, addr: Addr) -> (r: bool)
        requires
            old(self).wf(),
        ensures
            final(self).wf(),
            r == old(self).contains_addr(addr),
            final(self).pending_addrs() == remove_addr(old(self).pending_addrs(), addr),
            final(self).ready_addrs() == remove_addr(old(self).ready_addrs(), addr),
    {
        let ghost p0 = self.pending_addrs();
        let ghost r0 = self.ready_addrs();
        match position(&self.pending, addr) {
            Some(i) => {
                let _ = self.pending.remove(i);
                proof {
                    assert(p0[i as int] == addr);
                    assert(self.pending_addrs() =~= p0.remove(i as int));
                    lemma_index_of_unique(p0, i as int);
                    lemma_remove_addr(p0, addr);
                    assert(!r0.contains(addr));
                    assert(remove_addr(r0, addr) == r0);
                }
                true
            },
            None => {
                proof {
                    assert forall|k: int| 0 <= k < p0.len() implies p0[k] != addr by {}
                    assert(!p0.contains(addr));
                    assert(remove_addr(p0, addr) == p0);
                }
                match position(&self.ready, addr) {
                    Some(i) => {
                        let _ = self.ready.remove(i);
                        proof {
                            assert(r0[i as int] == addr);
                            assert(self.ready_addrs() =~= r0.remove(i as int));
                            lemma_index_of_unique(r0, i as int);
                            lemma_remove_addr(r0, addr);
                        }
                        true
                    },
                    None => {
                        proof {
                            assert(!r0.contains(addr));
                            assert(remove_addr(r0, addr) == r0);
                        }
                        false
                    },
                }
            },
        }
    }

    /// Inserts or replaces the service for `addr`; the new entry is enqueued
    /// as pending, and any previous entry for `addr` is dropped.
    pub fn push(&mut self, addr: Addr, svc: E)
        requires
            old(self).wf(),
        ensures
            final(self).wf(),
            final(self).pending_addrs() == remove_addr(old(self).pending_addrs(), addr).push(addr),
            final(self).ready_addrs() == remove_addr(old(self).ready_addrs(), addr),
            forall|x: Addr|
                #[trigger] final(self).contains_addr(x) <==> (old(self).contains_addr(x) || x
                    == addr),
    {
        let ghost p0 = self.pending_addrs();
        let ghost r0 = self.ready_addrs();
        self.evict(addr);
        let ghost p1 = self.pending_addrs();
        self.pending.push((addr, svc));
        proof {
            assert(self.pending_addrs() =~= p1.push(addr));
            lemma_remove_addr(p0, addr);
            lemma_remove_addr(r0, addr);
            lemma_push_distinct(p1, addr);
            assert forall|a: Addr|
                !(#[trigger] self.pending_addrs().contains(a)
                    && self.ready_addrs().contains(a)) by {
                if self.pending_addrs().contains(a) && self.ready_addrs().contains(a) {
                    assert(a != addr);
                    assert(p0.contains(a) && r0.contains(a));
                }
            }
            assert forall|x: Addr| #[trigger]
                self.contains_addr(x) <==> ((p0.contains(x) || r0.contains(x)) || x
                == addr) by {
                if x != addr {
                    assert(self.pending_addrs().contains(x) <==> p1.contains(x));
                }
            }
        }
    }

    /// Probes every pending entry once: entries reporting ready move to the
    /// end of the ready sequence, still-pending entries remain in order, and
    /// the first failing entry is removed, its error surfaced with its
    /// address. Reports `Ready` exactly when the pending partition is empty
    /// after the pass.
    pub fn poll_pending(&mut self) -> (r: PollStatus<E::Error>)
        requires
            old(self).wf(),
        ensures
            final(self).wf(),
            final(self).ready_addrs().len() >= old(self).ready_addrs().len(),
            final(self).ready_addrs().take(old(self).ready_addrs().len() as int) == old(
                self,
            ).ready_addrs(),
            match r {
                PollStatus::Failed(a, _) => {
                    &&& old(self).pending_addrs().contains(a)
                    &&& !final(self).contains_addr(a)
                    &&& forall|x: Addr|
                        #[trigger] final(self).contains_addr(x) <==> (old(self).contains_addr(x)
                            && x != a)
                },
                PollStatus::Ready => {
                    &&& final(self).pending_addrs().len() == 0
                    &&& final(self).ready_addrs() == old(self).ready_addrs() + old(
                        self,
                    ).pending_addrs()
                    &&& forall|x: Addr|
                        #[trigger] final(self).contains_addr(x) <==> old(self).contains_addr(x)
                },
                PollStatus::Pending => {
                    &&& final(self).pending_addrs().len() > 0
                    &&& forall|x: Addr|
                        #[trigger] final(self).contains_addr(x) <==> old(self).contains_addr(x)
                    &&& forall|x: Addr|
                        #[trigger] final(self).pending_addrs().contains(x) ==> old(
                            self,
                        ).pending_addrs().contains(x)
                },
            },
    {
        let ghost p0 = self.pending_addrs();
        let ghost r0 = self.ready_addrs();
        let mut i: usize = 0;
        let ghost mut seen: int = 0;
        while i < self.pending.len()
            invariant
                p0 == old(self).pending_addrs(),
                r0 == old(self).ready_addrs(),
                self.wf(),
                i as int <= self.pending_addrs().len(),
                0 <= seen <= p0.len(),
                self.pending_addrs().skip(i as int) == p0.skip(seen),
                seen - i == self.ready_addrs().len() - r0.len(),
                forall|k: int| 0 <= k < i ==> p0.contains(#[trigger] self.pending_addrs()[k]),
                self.ready_addrs().len() >= r0.len(),
                self.ready_addrs().take(r0.len() as int) == r0,
                forall|x: Addr|
                    #[trigger] self.contains_addr(x) <==> (p0.contains(x) || r0.contains(x)),
                i == 0 ==> self.ready_addrs() == r0 + p0.take(seen),
            decreases self.pending@.len() - i,
        {
            let ghost pb = self.pending_addrs();
            let ghost rb = self.ready_addrs();
            proof {
                assert forall|x: Addr| #![trigger pb.contains(x)] #![trigger rb.contains(x)]
                    !(pb.contains(x) && rb.contains(x)) by {
                    assert(!(self.pending_addrs().contains(x) && self.ready_addrs().contains(x)));
                }
                assert forall|x: Addr|
                    #![trigger pb.contains(x)]
                    #![trigger rb.contains(x)]
                    #![trigger p0.contains(x)]
                    #![trigger r0.contains(x)]
                    (pb.contains(x) || rb.contains(x)) <==> (p0.contains(x) || r0.contains(
                    x,
                )) by {
                    assert(self.contains_addr(x) <==> (p0.contains(x) || r0.contains(x)));
                }
                assert forall|k: int| 0 <= k < i implies p0.contains(#[trigger] pb[k]) by {
                    assert(p0.contains(self.pending_addrs()[k]));
                }
            }
            let (a, mut e) = self.pending.remove(i);
            proof {
                assert(self.pending_addrs() =~= pb.remove(i as int));
                assert(a == pb[i as int]);
                assert(pb.skip(i as int).len() == pb.len() - i);
                assert(pb.skip(i as int)[0] == pb[i as int]);
                assert(p0.skip(seen)[0] == p0[seen]);
                assert(a == p0[seen]);
                assert(seen < p0.len());
                lemma_remove_keeps_distinct(pb, i as int);
                pb.remove_ensures(i as int);
                assert(pb.contains(a));
                assert(!rb.contains(a));
            }
            match e.probe() {
                Probe::Ready => {
                    self.ready.push((a, e));
                    proof {
                        assert(self.ready_addrs() =~= rb.push(a));
                        assert(pb.contains(a));
                        assert(!rb.contains(a));
                        lemma_push_distinct(rb, a);
                        assert forall|k: int|
                            0 <= k < self.pending_addrs().skip(i as int).len() implies #[trigger] p0.skip(
                            seen + 1,
                        )[k] == self.pending_addrs().skip(i as int)[k] by {
                            assert(self.pending_addrs().skip(i as int)[k] == self.pending_addrs()[i
                                + k]);
                            assert(self.pending_addrs()[i + k] == pb[i + k + 1]);
                            assert(pb.skip(i as int)[k + 1] == pb[i + k + 1]);
                            assert(p0.skip(seen)[k + 1] == p0[seen + k + 1]);
                            assert(p0.skip(seen + 1)[k] == p0[seen + 1 + k]);
                        }
                        assert(self.pending_addrs().skip(i as int) =~= p0.skip(seen + 1));
                        assert(self.ready_addrs().take(r0.len() as int) =~= r0);
                        assert forall|x: Addr|
                            !(#[trigger] self.pending_addrs().contains(x)
                                && self.ready_addrs().contains(x)) by {
                            assert(self.pending_addrs().contains(x) <==> (pb.contains(x) && x
                                != a));
                            assert(self.ready_addrs().contains(x) <==> (rb.contains(x) || x == a));
                        }
                        assert forall|x: Addr|
                            #[trigger] self.contains_addr(x) <==> (p0.contains(x) || r0.contains(
                                x,
                            )) by {
                            assert(self.pending_addrs().contains(x) <==> (pb.contains(x) && x
                                != a));
                            assert(self.ready_addrs().contains(x) <==> (rb.contains(x) || x == a));
                            assert((pb.contains(x) || rb.contains(x)) <==> (p0.contains(x)
                                || r0.contains(x)));
                            assert(pb.contains(a));
                        }
                        if i == 0 {
                            assert(p0.take(seen + 1) =~= p0.take(seen).push(p0[seen]));
                            assert(self.ready_addrs() =~= r0 + p0.take(seen + 1));
                        }
                        seen = seen + 1;
                    }
                },
                Probe::Pending => {
                    self.pending.insert(i, (a, e));
                    proof {
                        assert(self.pending_addrs() =~= pb);
                        assert forall|k: int|
                            0 <= k < self.pending_addrs().skip(i + 1).len() implies #[trigger] p0.skip(
                            seen + 1,
                        )[k] == self.pending_addrs().skip(i + 1)[k] by {
                            assert(self.pending_addrs().skip(i + 1)[k] == pb[i + 1 + k]);
                            assert(pb.skip(i as int)[k + 1] == pb[i + k + 1]);
                            assert(p0.skip(seen)[k + 1] == p0[seen + k + 1]);
                            assert(p0.skip(seen + 1)[k] == p0[seen + 1 + k]);
                        }
                        assert(self.pending_addrs().skip(i + 1) =~= p0.skip(seen + 1));
                        assert(self.pending_addrs()[i as int] == a);
                        assert(p0.contains(a));
                        assert forall|k: int|
                            0 <= k < i + 1 implies p0.contains(
                            #[trigger] self.pending_addrs()[k],
                        ) by {
                            if k < i {
                                assert(self.pending_addrs()[k] == pb[k]);
                                assert(p0.contains(pb[k]));
                            } else {
                                assert(self.pending_addrs()[i as int] == a);
                            }
                        }
                        assert forall|x: Addr|
                            #[trigger] self.contains_addr(x) <==> (p0.contains(x) || r0.contains(
                                x,
                            )) by {
                            assert((pb.contains(x) || rb.contains(x)) <==> (p0.contains(x)
                                || r0.contains(x)));
                        }
                        seen = seen + 1;
                    }
                    i = i + 1;
                },
                Probe::Failed(err) => {
                    proof {
                        assert(p0.contains(a));
                        assert(self.ready_addrs() == rb);
                        assert(rb.len() >= r0.len());
                        assert(rb.take(r0.len() as int) == r0);
                        assert forall|x: Addr|
                            !(#[trigger] self.pending_addrs().contains(x)
                                && self.ready_addrs().contains(x)) by {
                            assert(self.pending_addrs().contains(x) <==> (pb.contains(x) && x
                                != a));
                            if self.ready_addrs().contains(x) {
                                assert(rb.contains(x));
                            }
                        }
                        assert forall|x: Addr|
                            #[trigger] self.contains_addr(x) <==> ((p0.contains(x) || r0.contains(
                                x,
                            )) && x != a) by {
                            assert(self.pending_addrs().contains(x) <==> (pb.contains(x) && x
                                != a));
                            assert((pb.contains(x) || rb.contains(x)) <==> (p0.contains(x)
                                || r0.contains(x)));
                            if x == a {
                                assert(!rb.contains(a));
                            }
                        }
                    }
                    return PollStatus::Failed(a, err);
                },
            }
        }
        if self.pending.len() == 0 {
            proof {
                assert(i == 0);
                assert(self.pending_addrs().skip(0) =~= self.pending_addrs());
                assert(p0.skip(seen).len() == 0);
                assert(seen == p0.len());
                assert(p0.take(seen) =~= p0);
            }
            PollStatus::Ready
        } else {
            proof {
                assert forall|x: Addr| #[trigger]
                    self.pending_addrs().contains(x) implies p0.contains(x) by {
                    let k = choose|k: int|
                        0 <= k < self.pending_addrs().len() && self.pending_addrs()[k] == x;
                }
            }
            PollStatus::Pending
        }
    }

    /// Re-probes the ready entry at `index`. Still ready: `Ok(true)`, nothing
    /// moves. Reports pending: the entry moves to the end of the pending
    /// sequence and the ready sequence closes over the gap, `Ok(false)`.
    /// Fails: the entry is removed and its error surfaced with its address.
    pub fn check_ready_index(&mut self, index: usize) -> (r: Result<bool, (Addr, E::Error)>)
        requires
            old(self).wf(),
            index < old(self).ready_addrs().len(),
        ensures
            final(self).wf(),
            match r {
                Ok(true) => {
                    &&& final(self).ready_addrs() == old(self).ready_addrs()
                    &&& final(self).pending_addrs() == old(self).pending_addrs()
                },
                Ok(false) => {
                    &&& final(self).ready_addrs() == old(self).ready_addrs().remove(index as int)
                    &&& final(self).pending_addrs() == old(self).pending_addrs().push(
                        old(self).ready_addrs()[index as int],
                    )
                },
                Err((a, _)) => {
                    &&& a == old(self).ready_addrs()[index as int]
                    &&& final(self).ready_addrs() == old(self).ready_addrs().remove(index as int)
                    &&& final(self).pending_addrs() == old(self).pending_addrs()
                    &&& !final(self).contains_addr(a)
                },
            },
    {
        let ghost p0 = self.pending_addrs();
        let ghost r0 = self.ready_addrs();
        let (a, mut e) = self.ready.remove(index);
        proof {
            assert(self.ready_addrs() =~= r0.remove(index as int));
            assert(a == r0[index as int]);
            lemma_remove_keeps_distinct(r0, index as int);
        }
        match e.probe() {
            Probe::Ready => {
                self.ready.insert(index, (a, e));
                proof {
                    assert(self.ready_addrs() =~= r0);
                }
                Ok(true)
            },
            Probe::Pending => {
                self.pending.push((a, e));
                proof {
                    assert(self.pending_addrs() =~= p0.push(a));
                    assert(!p0.contains(a));
                    lemma_push_distinct(p0, a);
                }
                Ok(false)
            },
            Probe::Failed(err) => {
                proof {
                    assert(!p0.contains(a));
                    assert(!self.ready_addrs().contains(a));
                }
                Err((a, err))
            },
        }
    }

    /// Dispatches `req` through the ready entry at `index`; the entry moves
    /// back to the end of the pending sequence (one request per readiness),
    /// and the caller owns the returned in-flight response.
    pub fn call_ready_index(&mut self, index: usize, req: E::Req) -> (r: E::Fut)
        requires
            old(self).wf(),
            index < old(self).ready_addrs().len(),
        ensures
            final(self).wf(),
            final(self).ready_addrs() == old(self).ready_addrs().remove(index as int),
            final(self).pending_addrs() == old(self).pending_addrs().push(
                old(self).ready_addrs()[index as int],
            ),
    {
        let ghost p0 = self.pending_addrs();
        let ghost r0 = self.ready_addrs();
        let (a, mut e) = self.ready.remove(index);
        let fut = e.dispatch(req);
        self.pending.push((a, e));
        proof {
            assert(self.ready_addrs() =~= r0.remove(index as int));
            assert(a == r0[index as int]);
            lemma_remove_keeps_distinct(r0, index as int);
            assert(self.pending_addrs() =~= p0.push(a));
            assert(!p0.contains(a));
            lemma_push_distinct(p0, a);
        }
        fut
    }
}

} // verus!
