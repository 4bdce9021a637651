//! The pool: registry, update application, power-of-two-choices selection,
//! and the polling facade.

use vstd::prelude::*;
use rand::rngs::SmallRng;
use crate::{keys, lemma_lookup_at_key, lemma_lookup_last_occurrence, lemma_lookup_some_iff, lookup,
    Addr, Update};
use crate::cache::{Endpoint, NewEndpoint, PollStatus, ReadyCache, position};
use crate::metrics::{bumped, P2cMetrics};
use crate::rng::{fresh_rng, gen_pair};

verus! {

/// A `Reset` that would change nothing: every named address already carries
/// its final target, and no current address is missing from the update.
pub open spec fn reset_noop(reg: Seq<(Addr, u64)>, targets: Seq<(Addr, u64)>) -> bool {
    &&& forall|a: Addr| #[trigger] keys(targets).contains(a) ==> lookup(reg, a) == lookup(targets, a)
    &&& forall|a: Addr| #[trigger] keys(reg).contains(a) ==> keys(targets).contains(a)
}

/// An update that would change nothing, by variant.
pub open spec fn update_noop(reg: Seq<(Addr, u64)>, up: Update) -> bool {
    match up {
        Update::Reset(ts) => reset_noop(reg, ts@),
        Update::Add(ts) => forall|j: int|
            0 <= j < ts@.len() ==> lookup(reg, (#[trigger] ts@[j]).0) == Some(ts@[j].1),
        Update::Remove(addrs) => forall|j: int|
            0 <= j < addrs@.len() ==> !keys(reg).contains(#[trigger] addrs@[j]),
        Update::DoesNotExist => reg.len() == 0,
    }
}

/// A membership that matches a `Reset` point for point makes the same
/// `Reset` a no-op: applying it again changes nothing.
pub proof fn lemma_reset_idempotent(reg: Seq<(Addr, u64)>, targets: Seq<(Addr, u64)>)
    requires
        forall|a: Addr| #[trigger] lookup(reg, a) == lookup(targets, a),
        forall|a: Addr| #[trigger] keys(reg).contains(a) <==> keys(targets).contains(a),
    ensures
        reset_noop(reg, targets),
{
}

/// Whether an address occurs among the keys of `s` at or after `from`.
pub open spec fn has_addr_from(s: Seq<(Addr, u64)>, from: int, a: Addr) -> bool {
    exists|j: int| from <= j < s.len() && (#[trigger] s[j]).0 == a
}

/// Occurring anywhere is the same as being a key.
pub proof fn lemma_has_addr_from_keys(s: Seq<(Addr, u64)>, a: Addr)
    ensures
        has_addr_from(s, 0, a) <==> keys(s).contains(a),
{
    if has_addr_from(s, 0, a) {
        let j = choose|j: int| 0 <= j < s.len() && (#[trigger] s[j]).0 == a;
        assert(keys(s)[j] == a);
    }
    if keys(s).contains(a) {
        let j = choose|j: int| 0 <= j < keys(s).len() && keys(s)[j] == a;
        assert(s[j].0 == a);
    }
}

/// Scans the keys of `v` from `from` on for `addr`.
fn contains_from(v: &Vec<(Addr, u64)>, from: usize, addr: Addr) -> (r: bool)
    ensures
        r == has_addr_from(v@, from as int, addr),
{
    let mut i: usize = from;
    while i < v.len()
        invariant
            from <= i,
            i <= v@.len() || i == from,
            forall|k: int| from <= k < i && k < v@.len() ==> (#[trigger] v@[k]).0 != addr,
        decreases v@.len() - i,
    {
        if v[i].0 == addr {
            return true;
        }
        i = i + 1;
    }
    false
}

/// Looks a target up in a registry with unique keys.
fn find_target(reg: &Vec<(Addr, u64)>, addr: Addr) -> (r: Option<u64>)
    requires
        keys(reg@).no_duplicates(),
    ensures
        r == lookup(reg@, addr),
{
    match position(reg, addr) {
        Some(i) => {
            proof {
                assert(keys(reg@)[i as int] == reg@[i as int].0);
                lemma_lookup_at_key(reg@, i as int);
            }
            Some(reg[i].1)
        },
        None => {
            proof {
                assert forall|k: int| 0 <= k < keys(reg@).len() implies keys(reg@)[k] != addr by {
                    assert(keys(reg@)[k] == reg@[k].0);
                }
                assert(!keys(reg@).contains(addr));
                lemma_lookup_some_iff(reg@, addr);
            }
            None
        },
    }
}

/// Containment in a sequence extended by one element.
pub proof fn lemma_seq_push_contains(s: Seq<Addr>, a: Addr, x: Addr)
    ensures
        s.push(a).contains(x) <==> (s.contains(x) || x == a),
{
    if s.contains(x) {
        let k = choose|k: int| 0 <= k < s.len() && s[k] == x;
        assert(s.push(a)[k] == x);
    }
    if x == a {
        assert(s.push(a)[s.len() as int] == x);
    }
    if s.push(a).contains(x) {
        let k = choose|k: int| 0 <= k < s.push(a).len() && s.push(a)[k] == x;
        if k < s.len() {
            assert(s[k] == x);
        }
    }
}

/// One step of a prefix: `lookup` in the longer prefix either hits the new
/// entry or falls back to the shorter prefix.
pub proof fn lemma_lookup_take_step(ts: Seq<(Addr, u64)>, k: int, a: Addr)
    requires
        0 <= k < ts.len(),
    ensures
        lookup(ts.take(k + 1), a) == if ts[k].0 == a {
            Some(ts[k].1)
        } else {
            lookup(ts.take(k), a)
        },
{
    assert(ts.take(k + 1).last() == ts[k]);
    assert(ts.take(k + 1).drop_last() =~= ts.take(k));
}

/// One step of a prefix: key membership grows by the new entry's address.
pub proof fn lemma_keys_take_step(ts: Seq<(Addr, u64)>, k: int, a: Addr)
    requires
        0 <= k < ts.len(),
    ensures
        keys(ts.take(k + 1)).contains(a) <==> (keys(ts.take(k)).contains(a) || ts[k].0 == a),
{
    assert(keys(ts.take(k + 1)) =~= keys(ts.take(k)).push(ts[k].0));
    lemma_seq_push_contains(keys(ts.take(k)), ts[k].0, a);
}

/// Dispatches requests to a pool of endpoint services selected by the
/// power-of-two-choices algorithm.
pub struct P2cPool<E, N> {
    new_endpoint: N,
    registry: Vec<(Addr, u64)>,
    cache: ReadyCache<E>,
    rng: SmallRng,
    metrics: P2cMetrics,
    next_idx: Option<usize>,
}

impl<E: Endpoint, N: NewEndpoint<E>> P2cPool<E, N> {
    /// The registry: each live address with the target it was built from.
    pub closed spec fn registry_seq(&self) -> Seq<(Addr, u64)> {
        self.registry@
    }

    /// The target the endpoint at `a` was built from, if `a` is live.
    pub open spec fn target_of(&self, a: Addr) -> Option<u64> {
        lookup(self.registry_seq(), a)
    }

    /// The number of live endpoints.
    pub open spec fn registry_len(&self) -> nat {
        self.registry_seq().len()
    }

    /// Whether `a` is a live member.
    pub open spec fn in_registry(&self, a: Addr) -> bool {
        keys(self.registry_seq()).contains(a)
    }

    /// The addresses of the pending partition, in order.
    pub closed spec fn pending_addrs(&self) -> Seq<Addr> {
        self.cache.pending_addrs()
    }

    /// The addresses of the ready partition, in order.
    pub closed spec fn ready_addrs(&self) -> Seq<Addr> {
        self.cache.ready_addrs()
    }

    /// Whether the cache holds an endpoint for `a`, in either partition.
    pub open spec fn contains_endpoint(&self, a: Addr) -> bool {
        self.pending_addrs().contains(a) || self.ready_addrs().contains(a)
    }

    /// The reserved ready index, validated by the latest readiness signal.
    pub closed spec fn selection(&self) -> Option<usize> {
        self.next_idx
    }

    /// The pool's metric tallies.
    pub closed spec fn metrics_spec(&self) -> P2cMetrics {
        self.metrics
    }

    /// Registry and cache are sound: unique keys, every cached endpoint is a
    /// member, and the gauge equals the membership count.
    pub closed spec fn base_wf(&self) -> bool {
        &&& self.cache.wf()
        &&& keys(self.registry@).no_duplicates()
        &&& forall|a: Addr|
            #[trigger] self.cache.contains_addr(a) ==> keys(self.registry@).contains(a)
        &&& self.metrics.endpoints == self.registry@.len()
    }

    /// `base_wf`, and any reserved selection indexes the ready sequence.
    pub open spec fn wf(&self) -> bool {
        &&& self.base_wf()
        &&& match self.selection() {
            Some(i) => i < self.ready_addrs().len(),
            None => true,
        }
    }

    /// Every member has exactly one cached endpoint, and conversely. Updates
    /// preserve it; an endpoint failure suspends it until the next update
    /// that rebuilds or removes the failed address.
    pub open spec fn coherent(&self) -> bool {
        forall|a: Addr| #[trigger] self.in_registry(a) <==> self.contains_endpoint(a)
    }

    /// A well-formed pool keys its registry uniquely: the membership count
    /// is the cardinality of the member set, the gauge equals it, and every
    /// cached endpoint is a member.
    pub proof fn lemma_wf_facts(&self)
        requires
            self.base_wf(),
        ensures
            keys(self.registry_seq()).no_duplicates(),
            self.registry_len() == keys(self.registry_seq()).to_set().len(),
            forall|a: Addr|
                #[trigger] keys(self.registry_seq()).to_set().contains(a) <==> self.in_registry(a),
            forall|a: Addr| #[trigger] self.contains_endpoint(a) ==> self.in_registry(a),
            self.metrics_spec().endpoints == self.registry_len(),
    {
        keys(self.registry@).unique_seq_to_set();
        assert forall|a: Addr| #[trigger] self.contains_endpoint(a) implies self.in_registry(a) by {
            assert(self.cache.contains_addr(a));
        }
    }

    /// A fresh pool: empty registry and cache, no selection, a private
    /// random source, and the given (fresh) tallies.
    pub fn new(metrics: P2cMetrics, new_endpoint: N) -> (r: Self)
        requires
            metrics.endpoints == 0,
        ensures
            r.wf(),
            r.coherent(),
            r.registry_len() == 0,
            r.pending_addrs() == Seq::<Addr>::empty(),
            r.ready_addrs() == Seq::<Addr>::empty(),
            r.selection() is None,
            r.metrics_spec() == metrics,
    {
        let r = P2cPool {
            rng: fresh_rng(),
            metrics,
            new_endpoint,
            next_idx: None,
            cache: ReadyCache::new(),
            registry: Vec::new(),
        };
        proof {
            assert(keys(r.registry@) =~= Seq::<Addr>::empty());
        }
        r
    }

    /// The number of live endpoints.
    pub fn endpoints_len(&self) -> (r: usize)
        ensures
            r == self.registry_len(),
    {
        self.registry.len()
    }

    /// The recorded target for `addr`.
    pub fn get_target(&self, addr: Addr) -> (r: Option<u64>)
        requires
            self.base_wf(),
        ensures
            r == self.target_of(addr),
    {
        find_target(&self.registry, addr)
    }

    /// The pool's metric tallies.
    pub fn metrics(&self) -> (r: P2cMetrics)
        ensures
            r == self.metrics_spec(),
    {
        self.metrics
    }

    pub fn ready_len(&self) -> (r: usize)
        ensures
            r == self.ready_addrs().len(),
    {
        self.cache.ready_len()
    }

    pub fn pending_len(&self) -> (r: usize)
        ensures
            r == self.pending_addrs().len(),
    {
        self.cache.pending_len()
    }

    /// The reserved ready index, if a readiness signal is outstanding.
    pub fn current_selection(&self) -> (r: Option<usize>)
        ensures
            r == self.selection(),
    {
        self.next_idx
    }

    /// Whether the cache holds an endpoint for `addr`.
    pub fn has_endpoint(&self, addr: Addr) -> (r: bool)
        ensures
            r == self.contains_endpoint(addr),
    {
        self.cache.contains(addr)
    }

    /// The address of the ready endpoint at `index`.
    pub fn ready_addr(&self, index: usize) -> (r: Addr)
        requires
            index < self.ready_addrs().len(),
        ensures
            r == self.ready_addrs()[index as int],
    {
        self.cache.ready_addr(index)
    }
}

/// Keeps, in order, the last occurrence of each address: later entries of one
/// update overwrite earlier ones.
fn dedup_last(targets: &Vec<(Addr, u64)>) -> (r: Vec<(Addr, u64)>)
    ensures
        keys(r@).no_duplicates(),
        forall|a: Addr| #[trigger] keys(r@).contains(a) <==> keys(targets@).contains(a),
        forall|j: int|
            0 <= j < r@.len() ==> lookup(targets@, (#[trigger] r@[j]).0) == Some(r@[j].1),
{
    let mut out: Vec<(Addr, u64)> = Vec::new();
    let mut k: usize = 0;
    while k < targets.len()
        invariant
            k <= targets@.len(),
            keys(out@).no_duplicates(),
            forall|a: Addr|
                #[trigger] keys(out@).contains(a) <==> (has_addr_from(targets@, 0, a)
                    && !has_addr_from(targets@, k as int, a)),
            forall|j: int|
                0 <= j < out@.len() ==> lookup(targets@, (#[trigger] out@[j]).0) == Some(
                    out@[j].1,
                ),
        decreases targets@.len() - k,
    {
        let addr = targets[k].0;
        let target = targets[k].1;
        let ghost out0 = out@;
        if !contains_from(targets, k + 1, addr) {
            out.push((addr, target));
            proof {
                assert(keys(out@) =~= keys(out0).push(addr));
                assert(!keys(out0).contains(addr)) by {
                    if keys(out0).contains(addr) {
                        assert(!has_addr_from(targets@, k as int, addr));
                        assert(targets@[k as int].0 == addr);
                    }
                }
                assert forall|j: int| k < j < targets@.len() implies (#[trigger] targets@[j]).0
                    != addr by {
                    if targets@[j].0 == addr {
                        assert(has_addr_from(targets@, k + 1, addr));
                    }
                }
                lemma_lookup_last_occurrence(targets@, k as int);
                assert forall|a: Addr|
                    #[trigger] keys(out@).contains(a) <==> (has_addr_from(targets@, 0, a)
                        && !has_addr_from(targets@, k + 1, a)) by {
                    assert(keys(out@).contains(a) <==> (keys(out0).contains(a) || a == addr)) by {
                        if keys(out0).contains(a) {
                            let l = choose|l: int| 0 <= l < keys(out0).len() && keys(out0)[l] == a;
                            assert(keys(out@)[l] == a);
                        }
                        if keys(out@).contains(a) {
                            let l = choose|l: int| 0 <= l < keys(out@).len() && keys(out@)[l] == a;
                            if l < keys(out0).len() {
                                assert(keys(out0)[l] == a);
                            }
                        }
                        assert(keys(out@)[keys(out0).len() as int] == addr);
                    }
                    if a == addr {
                        assert(has_addr_from(targets@, 0, a));
                        if has_addr_from(targets@, k + 1, a) {
                            let j = choose|j: int|
                                k + 1 <= j < targets@.len() && (#[trigger] targets@[j]).0 == a;
                        }
                    } else {
                        assert(has_addr_from(targets@, k as int, a) <==> has_addr_from(
                            targets@,
                            k + 1,
                            a,
                        )) by {
                            if has_addr_from(targets@, k as int, a) {
                                let j = choose|j: int|
                                    k <= j < targets@.len() && (#[trigger] targets@[j]).0 == a;
                                assert(j != k);
                                assert(has_addr_from(targets@, k + 1, a));
                            }
                            if has_addr_from(targets@, k + 1, a) {
                                let j = choose|j: int|
                                    k + 1 <= j < targets@.len() && (#[trigger] targets@[j]).0 == a;
                                assert(has_addr_from(targets@, k as int, a));
                            }
                        }
                    }
                }
            }
        } else {
            proof {
                assert(has_addr_from(targets@, k + 1, addr));
                assert forall|a: Addr|
                    #[trigger] keys(out@).contains(a) <==> (has_addr_from(targets@, 0, a)
                        && !has_addr_from(targets@, k + 1, a)) by {
                    if a == addr {
                        assert(has_addr_from(targets@, k as int, addr));
                    } else {
                        if has_addr_from(targets@, k as int, a) {
                            let j = choose|j: int|
                                k <= j < targets@.len() && (#[trigger] targets@[j]).0 == a;
                            assert(j != k);
                            assert(has_addr_from(targets@, k + 1, a));
                        }
                        if has_addr_from(targets@, k + 1, a) {
                            let j = choose|j: int|
                                k + 1 <= j < targets@.len() && (#[trigger] targets@[j]).0 == a;
                            assert(has_addr_from(targets@, k as int, a));
                        }
                    }
                }
            }
        }
        k = k + 1;
    }
    proof {
        assert forall|a: Addr| #[trigger] keys(out@).contains(a) <==> keys(targets@).contains(
            a,
        ) by {
            lemma_has_addr_from_keys(targets@, a);
            if has_addr_from(targets@, k as int, a) {
                let j = choose|j: int|
                    k <= j < targets@.len() && (#[trigger] targets@[j]).0 == a;
            }
        }
    }
    out
}

impl<E: Endpoint, N: NewEndpoint<E>> P2cPool<E, N> {
    /// Resets the pool to exactly this membership without rebuilding
    /// endpoints whose target is unchanged; evicts everything else.
    /// Reports whether the cache was mutated.
    fn reset(&mut self, targets: Vec<(Addr, u64)>) -> (changed: bool)
        requires
            old(self).base_wf(),
        ensures
            final(self).base_wf(),
            forall|a: Addr| #[trigger] final(self).target_of(a) == lookup(targets@, a),
            forall|a: Addr| #[trigger] final(self).in_registry(a) <==> keys(targets@).contains(a),
            changed == !reset_noop(old(self).registry_seq(), targets@),
            !changed ==> final(self).pending_addrs() == old(self).pending_addrs(),
            !changed ==> final(self).ready_addrs() == old(self).ready_addrs(),
            !changed ==> final(self).registry_seq() == old(self).registry_seq(),
            forall|a: Addr|
                #[trigger] final(self).ready_addrs().contains(a) ==> old(self).ready_addrs().contains(a),
            forall|a: Addr|
                (#[trigger] keys(targets@).contains(a)) && lookup(old(self).registry_seq(), a)
                    != lookup(targets@, a) ==> final(self).pending_addrs().contains(a),
            forall|a: Addr|
                !(#[trigger] keys(targets@).contains(a)) ==> !final(self).contains_endpoint(a),
            old(self).coherent() ==> final(self).coherent(),
            final(self).selection() == old(self).selection(),
            final(self).metrics_spec() == (P2cMetrics {
                endpoints: final(self).registry_len() as usize,
                ..old(self).metrics_spec()
            }),
    {
        let ghost reg0 = self.registry@;
        let ghost p0 = self.cache.pending_addrs();
        let ghost r0 = self.cache.ready_addrs();
        let ghost coh0 = old(self).coherent();
        let deduped = dedup_last(&targets);
        let mut changed = false;
        let mut k: usize = 0;
        while k < deduped.len()
            invariant
                reg0 == old(self).registry@,
                p0 == old(self).cache.pending_addrs(),
                r0 == old(self).cache.ready_addrs(),
                coh0 == old(self).coherent(),
                old(self).base_wf(),
                self.registry@ == reg0,
                self.metrics == old(self).metrics,
                self.next_idx == old(self).next_idx,
                k <= deduped@.len(),
                keys(deduped@).no_duplicates(),
                forall|a: Addr|
                    #[trigger] keys(deduped@).contains(a) <==> keys(targets@).contains(a),
                forall|j: int|
                    0 <= j < deduped@.len() ==> lookup(targets@, (#[trigger] deduped@[j]).0)
                        == Some(deduped@[j].1),
                self.cache.wf(),
                forall|x: Addr|
                    (p0.contains(x) || r0.contains(x)) ==> #[trigger] self.cache.contains_addr(x),
                forall|x: Addr|
                    #[trigger] self.cache.contains_addr(x) ==> ((p0.contains(x) || r0.contains(x))
                        || keys(deduped@).contains(x)),
                coh0 ==> (forall|j: int|
                    0 <= j < k ==> self.cache.contains_addr((#[trigger] deduped@[j]).0)),
                forall|x: Addr| #[trigger] self.cache.ready_addrs().contains(x) ==> r0.contains(x),
                forall|j: int|
                    0 <= j < k && lookup(reg0, (#[trigger] deduped@[j]).0) != Some(deduped@[j].1)
                        ==> self.cache.pending_addrs().contains(deduped@[j].0),
                changed ==> !reset_noop(reg0, targets@),
                !changed ==> self.cache.pending_addrs() == p0 && self.cache.ready_addrs() == r0,
                !changed ==> (forall|j: int|
                    0 <= j < k ==> lookup(reg0, (#[trigger] deduped@[j]).0) == Some(
                        deduped@[j].1,
                    )),
            decreases deduped@.len() - k,
        {
            let addr = deduped[k].0;
            let target = deduped[k].1;
            let ghost pbk = self.cache.pending_addrs();
            let ghost rbk = self.cache.ready_addrs();
            proof {
                assert(keys(deduped@)[k as int] == addr);
                assert(keys(deduped@).contains(addr));
                assert(lookup(targets@, addr) == Some(target));
                assert forall|x: Addr| #[trigger] rbk.contains(x) implies r0.contains(x) by {
                    assert(self.cache.ready_addrs().contains(x) ==> r0.contains(x));
                }
                assert forall|j: int|
                    0 <= j < k && lookup(reg0, (#[trigger] deduped@[j]).0) != Some(deduped@[j].1)
                        implies pbk.contains(deduped@[j].0) by {
                    assert(self.cache.pending_addrs().contains(deduped@[j].0));
                }
            }
            let prev = find_target(&self.registry, addr);
            let same = match prev {
                Some(t) => t == target,
                None => false,
            };
            if !same {
                let svc = self.new_endpoint.new_endpoint(addr, target);
                self.cache.push(addr, svc);
                changed = true;
                proof {
                    assert(lookup(reg0, addr) != lookup(targets@, addr));
                    assert(!reset_noop(reg0, targets@));
                    crate::cache::lemma_remove_addr(pbk, addr);
                    crate::cache::lemma_remove_addr(rbk, addr);
                    assert forall|x: Addr|
                        #[trigger] self.cache.ready_addrs().contains(x) implies r0.contains(x) by {
                        assert(x != addr);
                        assert(rbk.contains(x));
                    }
                    assert forall|j: int|
                        0 <= j < k + 1 && lookup(reg0, (#[trigger] deduped@[j]).0) != Some(
                            deduped@[j].1,
                        ) implies self.cache.pending_addrs().contains(deduped@[j].0) by {
                        lemma_seq_push_contains(
                            crate::cache::remove_addr(pbk, addr),
                            addr,
                            deduped@[j].0,
                        );
                        if j < k {
                            assert(keys(deduped@)[j] == deduped@[j].0);
                            assert(keys(deduped@)[k as int] == addr);
                            assert(deduped@[j].0 != addr);
                            assert(pbk.contains(deduped@[j].0));
                        }
                    }
                }
            } else {
                proof {
                    assert(lookup(reg0, addr) == Some(target));
                    if coh0 {
                        lemma_lookup_some_iff(reg0, addr);
                        assert(old(self).in_registry(addr));
                        assert(self.cache.contains_addr(addr));
                    }
                    assert forall|j: int|
                        0 <= j < k + 1 && lookup(reg0, (#[trigger] deduped@[j]).0) != Some(
                            deduped@[j].1,
                        ) implies self.cache.pending_addrs().contains(deduped@[j].0) by {
                        assert(j < k);
                        assert(pbk.contains(deduped@[j].0));
                    }
                }
            }
            k = k + 1;
        }
        proof {
            assert forall|x: Addr|
                #[trigger] self.cache.contains_addr(x) implies (keys(deduped@).contains(x)
                    || has_addr_from(reg0, 0, x)) by {
                if !(keys(deduped@).contains(x)) {
                    assert(p0.contains(x) || r0.contains(x));
                    assert(old(self).cache.contains_addr(x));
                    assert(keys(reg0).contains(x));
                    lemma_has_addr_from_keys(reg0, x);
                }
            }
        }
        let mut j: usize = 0;
        while j < self.registry.len()
            invariant
                reg0 == old(self).registry@,
                p0 == old(self).cache.pending_addrs(),
                r0 == old(self).cache.ready_addrs(),
                coh0 == old(self).coherent(),
                old(self).base_wf(),
                self.registry@ == reg0,
                self.metrics == old(self).metrics,
                self.next_idx == old(self).next_idx,
                j <= reg0.len(),
                keys(deduped@).no_duplicates(),
                forall|a: Addr|
                    #[trigger] keys(deduped@).contains(a) <==> keys(targets@).contains(a),
                forall|jj: int|
                    0 <= jj < deduped@.len() ==> lookup(targets@, (#[trigger] deduped@[jj]).0)
                        == Some(deduped@[jj].1),
                self.cache.wf(),
                forall|x: Addr|
                    #[trigger] self.cache.contains_addr(x) ==> (keys(deduped@).contains(x)
                        || has_addr_from(reg0, j as int, x)),
                coh0 ==> (forall|jj: int|
                    0 <= jj < deduped@.len() ==> self.cache.contains_addr(
                        (#[trigger] deduped@[jj]).0,
                    )),
                forall|x: Addr| #[trigger] self.cache.ready_addrs().contains(x) ==> r0.contains(x),
                forall|jj: int|
                    0 <= jj < deduped@.len() && lookup(reg0, (#[trigger] deduped@[jj]).0) != Some(
                        deduped@[jj].1,
                    ) ==> self.cache.pending_addrs().contains(deduped@[jj].0),
                changed ==> !reset_noop(reg0, targets@),
                !changed ==> self.cache.pending_addrs() == p0 && self.cache.ready_addrs() == r0,
                !changed ==> (forall|jj: int|
                    0 <= jj < deduped@.len() ==> lookup(reg0, (#[trigger] deduped@[jj]).0) == Some(
                        deduped@[jj].1,
                    )),
                !changed ==> (forall|l: int|
                    0 <= l < j ==> keys(deduped@).contains((#[trigger] reg0[l]).0)),
            decreases reg0.len() - j,
        {
            let a = self.registry[j].0;
            let is_stale = match find_target(&deduped, a) {
                Some(_) => false,
                None => true,
            };
            if is_stale {
                proof {
                    lemma_lookup_some_iff(deduped@, a);
                    assert(!keys(deduped@).contains(a));
                    assert(keys(reg0)[j as int] == a);
                    assert(keys(reg0).contains(a));
                    assert(!keys(targets@).contains(a));
                    assert(!reset_noop(reg0, targets@));
                }
                let ghost cpre = *self;
                proof {
                    assert forall|x: Addr|
                        #[trigger] cpre.cache.ready_addrs().contains(x) implies r0.contains(x) by {
                        assert(self.cache.ready_addrs().contains(x) ==> r0.contains(x));
                    }
                    assert forall|jj: int|
                        0 <= jj < deduped@.len() && lookup(reg0, (#[trigger] deduped@[jj]).0)
                            != Some(deduped@[jj].1) implies cpre.cache.pending_addrs().contains(
                            deduped@[jj].0,
                        ) by {
                        assert(self.cache.pending_addrs().contains(deduped@[jj].0));
                    }
                }
                let _ = self.cache.evict(a);
                changed = true;
                proof {
                    crate::cache::lemma_remove_addr(cpre.cache.pending_addrs(), a);
                    crate::cache::lemma_remove_addr(cpre.cache.ready_addrs(), a);
                    assert forall|jj: int|
                        0 <= jj < deduped@.len() && lookup(reg0, (#[trigger] deduped@[jj]).0)
                            != Some(deduped@[jj].1) implies self.cache.pending_addrs().contains(
                            deduped@[jj].0,
                        ) by {
                        assert(keys(deduped@)[jj] == deduped@[jj].0);
                        assert(keys(deduped@).contains(deduped@[jj].0));
                        assert(deduped@[jj].0 != a);
                        assert(cpre.cache.pending_addrs().contains(deduped@[jj].0));
                    }
                    assert forall|x: Addr|
                        #[trigger] self.cache.contains_addr(x) implies (keys(deduped@).contains(x)
                            || has_addr_from(reg0, j + 1, x)) by {
                        assert(x != a);
                        assert(cpre.cache.contains_addr(x));
                        if has_addr_from(reg0, j as int, x) {
                            let w = choose|w: int|
                                j <= w < reg0.len() && (#[trigger] reg0[w]).0 == x;
                            assert(w != j);
                            assert(has_addr_from(reg0, j + 1, x));
                        }
                    }
                    if coh0 {
                        assert forall|jj: int|
                            0 <= jj < deduped@.len() implies self.cache.contains_addr(
                            (#[trigger] deduped@[jj]).0,
                        ) by {
                            assert(keys(deduped@)[jj] == deduped@[jj].0);
                            assert(keys(deduped@).contains(deduped@[jj].0));
                            assert(deduped@[jj].0 != a);
                            assert(cpre.cache.contains_addr(deduped@[jj].0));
                        }
                    }
                }
            } else {
                proof {
                    lemma_lookup_some_iff(deduped@, a);
                    assert(keys(deduped@).contains(a));
                    assert forall|x: Addr|
                        #[trigger] self.cache.contains_addr(x) implies (keys(deduped@).contains(x)
                            || has_addr_from(reg0, j + 1, x)) by {
                        if has_addr_from(reg0, j as int, x) {
                            let w = choose|w: int|
                                j <= w < reg0.len() && (#[trigger] reg0[w]).0 == x;
                            if w == j {
                                assert(x == a);
                            } else {
                                assert(has_addr_from(reg0, j + 1, x));
                            }
                        }
                    }
                    assert(keys(reg0)[j as int] == a);
                }
            }
            j = j + 1;
        }
        if changed {
            self.registry = deduped;
            let n = self.registry.len();
            self.metrics.endpoints = n;
        }
        proof {
            assert forall|x: Addr|
                #[trigger] self.cache.contains_addr(x) implies keys(deduped@).contains(x) by {
                if has_addr_from(reg0, reg0.len() as int, x) {
                    let w = choose|w: int|
                        reg0.len() <= w < reg0.len() && (#[trigger] reg0[w]).0 == x;
                }
            }
            if !changed {
                assert(reset_noop(reg0, targets@)) by {
                    assert forall|a: Addr| #[trigger]
                        keys(targets@).contains(a) implies lookup(reg0, a) == lookup(
                        targets@,
                        a,
                    ) by {
                        assert(keys(deduped@).contains(a));
                        let i = choose|i: int|
                            0 <= i < keys(deduped@).len() && keys(deduped@)[i] == a;
                        assert(deduped@[i].0 == a);
                        assert(lookup(reg0, deduped@[i].0) == Some(deduped@[i].1));
                        assert(lookup(targets@, deduped@[i].0) == Some(deduped@[i].1));
                    }
                    assert forall|a: Addr| #[trigger]
                        keys(reg0).contains(a) implies keys(targets@).contains(a) by {
                        let l = choose|l: int| 0 <= l < keys(reg0).len() && keys(reg0)[l] == a;
                        assert(reg0[l].0 == a);
                        assert(keys(deduped@).contains(reg0[l].0));
                    }
                }
                assert forall|a: Addr| #[trigger]
                    final(self).target_of(a) == lookup(targets@, a) by {
                    if keys(targets@).contains(a) {
                    } else {
                        lemma_lookup_some_iff(reg0, a);
                        lemma_lookup_some_iff(targets@, a);
                        if keys(reg0).contains(a) {
                            assert(keys(targets@).contains(a));
                        }
                    }
                }
                assert forall|a: Addr| #[trigger]
                    final(self).in_registry(a) <==> keys(targets@).contains(a) by {
                    if keys(targets@).contains(a) {
                        assert(lookup(reg0, a) == lookup(targets@, a));
                        lemma_lookup_some_iff(reg0, a);
                        lemma_lookup_some_iff(targets@, a);
                    }
                }
                assert forall|x: Addr|
                    #[trigger] self.cache.contains_addr(x) implies keys(self.registry@).contains(
                    x,
                ) by {
                    assert(keys(deduped@).contains(x));
                    let i = choose|i: int|
                        0 <= i < keys(deduped@).len() && keys(deduped@)[i] == x;
                    assert(deduped@[i].0 == x);
                    assert(lookup(reg0, deduped@[i].0) == Some(deduped@[i].1));
                    lemma_lookup_some_iff(reg0, x);
                }
                if coh0 {
                    assert forall|a: Addr| #[trigger]
                        final(self).in_registry(a) <==> final(self).contains_endpoint(a) by {
                        assert(old(self).in_registry(a) <==> old(self).contains_endpoint(a));
                        assert(self.cache.pending_addrs() == p0 && self.cache.ready_addrs() == r0);
                    }
                }
            } else {
                assert forall|a: Addr| #[trigger]
                    final(self).target_of(a) == lookup(targets@, a) by {
                    if keys(self.registry@).contains(a) {
                        let i = choose|i: int|
                            0 <= i < keys(self.registry@).len() && keys(self.registry@)[i] == a;
                        assert(self.registry@[i].0 == a);
                        lemma_lookup_at_key(self.registry@, i);
                    } else {
                        assert(!keys(targets@).contains(a));
                        lemma_lookup_some_iff(self.registry@, a);
                        lemma_lookup_some_iff(targets@, a);
                    }
                }
                if coh0 {
                    assert forall|a: Addr| #[trigger]
                        final(self).in_registry(a) <==> final(self).contains_endpoint(a) by {
                        if final(self).in_registry(a) {
                            let i = choose|i: int|
                                0 <= i < keys(self.registry@).len() && keys(self.registry@)[i]
                                    == a;
                            assert(self.registry@[i].0 == a);
                            assert(self.cache.contains_addr(self.registry@[i].0));
                        }
                        if final(self).contains_endpoint(a) {
                            assert(self.cache.contains_addr(a));
                            assert(keys(self.registry@).contains(a));
                        }
                    }
                }
            }
            assert forall|a: Addr|
                #[trigger] final(self).ready_addrs().contains(a) implies old(self).ready_addrs().contains(a) by {
                assert(self.cache.ready_addrs().contains(a) ==> r0.contains(a));
            }
            assert forall|a: Addr|
                (#[trigger] keys(targets@).contains(a)) && lookup(reg0, a) != lookup(
                    targets@,
                    a,
                ) implies final(self).pending_addrs().contains(a) by {
                assert(keys(deduped@).contains(a));
                let i = choose|i: int| 0 <= i < keys(deduped@).len() && keys(deduped@)[i] == a;
                assert(deduped@[i].0 == a);
                assert(lookup(targets@, deduped@[i].0) == Some(deduped@[i].1));
                assert(lookup(reg0, deduped@[i].0) != Some(deduped@[i].1));
                assert(self.cache.pending_addrs().contains(deduped@[i].0));
            }
            assert forall|a: Addr|
                !(#[trigger] keys(targets@).contains(a)) implies !final(self).contains_endpoint(a) by {
                if self.cache.contains_addr(a) {
                    assert(keys(deduped@).contains(a));
                }
            }
        }
        changed
    }

    /// Unions this set into the membership, updating targets for shared
    /// addresses and building endpoints for new or changed ones. Reports
    /// whether the cache was mutated.
    fn add(&mut self, targets: Vec<(Addr, u64)>) -> (changed: bool)
        requires
            old(self).base_wf(),
        ensures
            final(self).base_wf(),
            forall|a: Addr|
                #[trigger] final(self).target_of(a) == (match lookup(targets@, a) {
                    Some(t) => Some(t),
                    None => old(self).target_of(a),
                }),
            forall|a: Addr|
                #[trigger] final(self).in_registry(a) <==> (old(self).in_registry(a) || keys(
                    targets@,
                ).contains(a)),
            changed == (exists|j: int|
                0 <= j < targets@.len() && lookup(
                    old(self).registry_seq(),
                    (#[trigger] targets@[j]).0,
                ) != Some(targets@[j].1)),
            !changed ==> final(self).pending_addrs() == old(self).pending_addrs(),
            !changed ==> final(self).ready_addrs() == old(self).ready_addrs(),
            !changed ==> final(self).registry_seq() == old(self).registry_seq(),
            forall|a: Addr|
                #[trigger] final(self).ready_addrs().contains(a) ==> old(self).ready_addrs().contains(a),
            forall|a: Addr|
                (#[trigger] keys(targets@).contains(a)) && lookup(targets@, a) != old(self).target_of(a)
                    ==> final(self).pending_addrs().contains(a),
            forall|a: Addr|
                !(#[trigger] keys(targets@).contains(a)) ==> ((final(self).pending_addrs().contains(a)
                    <==> old(self).pending_addrs().contains(a)) && (final(self).ready_addrs().contains(a)
                    <==> old(self).ready_addrs().contains(a))),
            old(self).coherent() ==> final(self).coherent(),
            final(self).selection() == old(self).selection(),
            final(self).metrics_spec() == (P2cMetrics {
                endpoints: final(self).registry_len() as usize,
                ..old(self).metrics_spec()
            }),
    {
        let ghost reg0 = self.registry@;
        let ghost p0 = self.cache.pending_addrs();
        let ghost r0 = self.cache.ready_addrs();
        let ghost coh0 = old(self).coherent();
        proof {
            if coh0 {
                assert forall|a: Addr|
                    #[trigger] keys(self.registry@).contains(a) implies self.cache.contains_addr(
                    a,
                ) by {
                    assert(old(self).in_registry(a));
                    assert(old(self).contains_endpoint(a));
                }
            }
        }
        let mut changed = false;
        let mut k: usize = 0;
        while k < targets.len()
            invariant
                reg0 == old(self).registry@,
                p0 == old(self).cache.pending_addrs(),
                r0 == old(self).cache.ready_addrs(),
                coh0 == old(self).coherent(),
                old(self).base_wf(),
                self.metrics == old(self).metrics,
                self.next_idx == old(self).next_idx,
                k <= targets@.len(),
                keys(self.registry@).no_duplicates(),
                forall|a: Addr|
                    #[trigger] lookup(self.registry@, a) == (match lookup(
                        targets@.take(k as int),
                        a,
                    ) {
                        Some(t) => Some(t),
                        None => lookup(reg0, a),
                    }),
                forall|a: Addr|
                    #[trigger] keys(self.registry@).contains(a) <==> (keys(reg0).contains(a)
                        || keys(targets@.take(k as int)).contains(a)),
                self.cache.wf(),
                forall|x: Addr|
                    (p0.contains(x) || r0.contains(x)) ==> #[trigger] self.cache.contains_addr(x),
                forall|x: Addr|
                    #[trigger] self.cache.contains_addr(x) ==> keys(self.registry@).contains(x),
                coh0 ==> (forall|a: Addr|
                    #[trigger] keys(self.registry@).contains(a) ==> self.cache.contains_addr(a)),
                forall|x: Addr| #[trigger] self.cache.ready_addrs().contains(x) ==> r0.contains(x),
                forall|a: Addr|
                    (#[trigger] keys(targets@.take(k as int)).contains(a)) && lookup(
                        targets@.take(k as int),
                        a,
                    ) != lookup(reg0, a) ==> self.cache.pending_addrs().contains(a),
                forall|a: Addr|
                    !(#[trigger] keys(targets@.take(k as int)).contains(a)) ==> ((
                    self.cache.pending_addrs().contains(a) <==> p0.contains(a)) && (
                    self.cache.ready_addrs().contains(a) <==> r0.contains(a))),
                changed ==> (exists|j: int|
                    0 <= j < k && lookup(reg0, (#[trigger] targets@[j]).0) != Some(targets@[j].1)),
                !changed ==> self.registry@ == reg0,
                !changed ==> self.cache.pending_addrs() == p0 && self.cache.ready_addrs() == r0,
                !changed ==> (forall|j: int|
                    0 <= j < k ==> lookup(reg0, (#[trigger] targets@[j]).0) == Some(
                        targets@[j].1,
                    )),
            decreases targets@.len() - k,
        {
            let addr = targets[k].0;
            let target = targets[k].1;
            let ghost regb = self.registry@;
            let ghost pb = self.cache.pending_addrs();
            let ghost rb = self.cache.ready_addrs();
            proof {
                assert(targets@[k as int] == (addr, target));
                assert forall|a: Addr|
                    #[trigger] lookup(regb, a) == (match lookup(targets@.take(k as int), a) {
                        Some(t) => Some(t),
                        None => lookup(reg0, a),
                    }) by {
                    assert(lookup(self.registry@, a) == (match lookup(
                        targets@.take(k as int),
                        a,
                    ) {
                        Some(t) => Some(t),
                        None => lookup(reg0, a),
                    }));
                }
                assert forall|a: Addr|
                    #[trigger] keys(regb).contains(a) <==> (keys(reg0).contains(a) || keys(
                        targets@.take(k as int),
                    ).contains(a)) by {
                    assert(keys(self.registry@).contains(a) <==> (keys(reg0).contains(a) || keys(
                        targets@.take(k as int),
                    ).contains(a)));
                }
                assert forall|x: Addr|
                    #![trigger pb.contains(x)]
                    #![trigger rb.contains(x)]
                    (pb.contains(x) || rb.contains(x)) ==> keys(regb).contains(x) by {
                    if pb.contains(x) || rb.contains(x) {
                        assert(self.cache.contains_addr(x));
                        assert(keys(self.registry@).contains(x));
                    }
                }
                assert forall|x: Addr|
                    #![trigger p0.contains(x)]
                    #![trigger r0.contains(x)]
                    (p0.contains(x) || r0.contains(x)) ==> (pb.contains(x) || rb.contains(
                    x,
                )) by {
                    if p0.contains(x) || r0.contains(x) {
                        assert(self.cache.contains_addr(x));
                    }
                }
                if coh0 {
                    assert forall|a: Addr|
                        #[trigger] keys(regb).contains(a) implies (pb.contains(a) || rb.contains(
                        a,
                    )) by {
                        assert(keys(self.registry@).contains(a));
                        assert(self.cache.contains_addr(a));
                    }
                }
                assert forall|x: Addr| #[trigger] rb.contains(x) implies r0.contains(x) by {
                    assert(self.cache.ready_addrs().contains(x) ==> r0.contains(x));
                }
                assert forall|a: Addr|
                    (#[trigger] keys(targets@.take(k as int)).contains(a)) && lookup(
                        targets@.take(k as int),
                        a,
                    ) != lookup(reg0, a) implies pb.contains(a) by {
                    assert(self.cache.pending_addrs().contains(a));
                }
                assert forall|a: Addr|
                    !(#[trigger] keys(targets@.take(k as int)).contains(a)) implies ((pb.contains(
                        a,
                    ) <==> p0.contains(a)) && (rb.contains(a) <==> r0.contains(a))) by {
                    assert(self.cache.pending_addrs().contains(a) <==> p0.contains(a));
                    assert(self.cache.ready_addrs().contains(a) <==> r0.contains(a));
                }
            }
            let prevpos = position(&self.registry, addr);
            match prevpos {
                Some(i) => {
                    proof {
                        assert(keys(regb)[i as int] == addr);
                        lemma_lookup_at_key(regb, i as int);
                    }
                    let cur = self.registry[i].1;
                    if cur == target {
                        proof {
                            assert forall|a: Addr|
                                #[trigger] lookup(self.registry@, a) == (match lookup(
                                    targets@.take(k + 1),
                                    a,
                                ) {
                                    Some(t) => Some(t),
                                    None => lookup(reg0, a),
                                }) by {
                                lemma_lookup_take_step(targets@, k as int, a);
                            }
                            assert forall|a: Addr|
                                #[trigger] keys(self.registry@).contains(a) <==> (keys(
                                    reg0,
                                ).contains(a) || keys(targets@.take(k + 1)).contains(a)) by {
                                lemma_keys_take_step(targets@, k as int, a);
                                if targets@[k as int].0 == a {
                                    assert(keys(self.registry@).contains(a));
                                }
                            }
                            if !changed {
                                assert(lookup(reg0, addr) == Some(target));
                            }
                            assert(lookup(regb, addr) == Some(cur));
                            assert forall|a: Addr|
                                (#[trigger] keys(targets@.take(k + 1)).contains(a)) && lookup(
                                    targets@.take(k + 1),
                                    a,
                                ) != lookup(reg0, a) implies self.cache.pending_addrs().contains(
                                a,
                            ) by {
                                lemma_keys_take_step(targets@, k as int, a);
                                lemma_lookup_take_step(targets@, k as int, a);
                                if a == addr {
                                    assert(lookup(regb, addr) == (match lookup(
                                        targets@.take(k as int),
                                        addr,
                                    ) {
                                        Some(t) => Some(t),
                                        None => lookup(reg0, addr),
                                    }));
                                    if keys(targets@.take(k as int)).contains(addr) {
                                        lemma_lookup_some_iff(targets@.take(k as int), addr);
                                        assert(lookup(targets@.take(k as int), addr) == Some(
                                            target,
                                        ));
                                        assert(pb.contains(addr));
                                    } else {
                                        lemma_lookup_some_iff(targets@.take(k as int), addr);
                                        assert(lookup(regb, addr) == lookup(reg0, addr));
                                    }
                                } else {
                                    assert(pb.contains(a));
                                }
                            }
                            assert forall|a: Addr|
                                !(#[trigger] keys(targets@.take(k + 1)).contains(a)) implies ((
                                self.cache.pending_addrs().contains(a) <==> p0.contains(a)) && (
                                self.cache.ready_addrs().contains(a) <==> r0.contains(a))) by {
                                lemma_keys_take_step(targets@, k as int, a);
                                assert((pb.contains(a) <==> p0.contains(a)) && (rb.contains(a)
                                    <==> r0.contains(a)));
                            }
                        }
                    } else {
                        self.registry.remove(i);
                        self.registry.insert(i, (addr, target));
                        let svc = self.new_endpoint.new_endpoint(addr, target);
                        self.cache.push(addr, svc);
                        proof {
                            assert(self.registry@ =~= regb.update(i as int, (addr, target)));
                            assert(keys(self.registry@) =~= keys(regb));
                            assert forall|a: Addr|
                                #[trigger] lookup(self.registry@, a) == (match lookup(
                                    targets@.take(k + 1),
                                    a,
                                ) {
                                    Some(t) => Some(t),
                                    None => lookup(reg0, a),
                                }) by {
                                lemma_lookup_take_step(targets@, k as int, a);
                                if a == addr {
                                    assert(self.registry@[i as int].0 == addr);
                                    lemma_lookup_at_key(self.registry@, i as int);
                                } else {
                                    if keys(self.registry@).contains(a) {
                                        let l = choose|l: int|
                                            0 <= l < keys(self.registry@).len() && keys(
                                                self.registry@,
                                            )[l] == a;
                                        assert(l != i);
                                        assert(self.registry@[l] == regb[l]);
                                        lemma_lookup_at_key(self.registry@, l);
                                        lemma_lookup_at_key(regb, l);
                                    } else {
                                        lemma_lookup_some_iff(self.registry@, a);
                                        lemma_lookup_some_iff(regb, a);
                                    }
                                }
                            }
                            assert forall|a: Addr|
                                #[trigger] keys(self.registry@).contains(a) <==> (keys(
                                    reg0,
                                ).contains(a) || keys(targets@.take(k + 1)).contains(a)) by {
                                lemma_keys_take_step(targets@, k as int, a);
                                if targets@[k as int].0 == a {
                                    assert(keys(self.registry@).contains(a));
                                }
                            }
                            if !changed {
                                assert(regb == reg0);
                                assert(lookup(reg0, addr) != Some(target));
                            }
                            assert(keys(regb)[i as int] == addr);
                            assert(keys(self.registry@).contains(addr));
                            assert forall|x: Addr|
                                #[trigger] self.cache.contains_addr(x) implies keys(
                                self.registry@,
                            ).contains(x) by {
                                if x != addr {
                                    assert(pb.contains(x) || rb.contains(x));
                                    assert(keys(regb).contains(x));
                                }
                            }
                            assert forall|x: Addr|
                                (p0.contains(x) || r0.contains(x)) implies
                                #[trigger] self.cache.contains_addr(x) by {
                                assert(pb.contains(x) || rb.contains(x));
                            }
                            if coh0 {
                                assert forall|a: Addr|
                                    #[trigger] keys(self.registry@).contains(a) implies self
                                    .cache.contains_addr(a) by {
                                    if a != addr {
                                        assert(keys(regb).contains(a));
                                        assert(pb.contains(a) || rb.contains(a));
                                    }
                                }
                            }
                            crate::cache::lemma_remove_addr(pb, addr);
                            crate::cache::lemma_remove_addr(rb, addr);
                            assert forall|x: Addr|
                                #[trigger] self.cache.ready_addrs().contains(x) implies r0.contains(
                                x,
                            ) by {
                                assert(x != addr);
                                assert(rb.contains(x));
                            }
                            assert forall|a: Addr|
                                (#[trigger] keys(targets@.take(k + 1)).contains(a)) && lookup(
                                    targets@.take(k + 1),
                                    a,
                                ) != lookup(reg0, a) implies self.cache.pending_addrs().contains(
                                a,
                            ) by {
                                lemma_keys_take_step(targets@, k as int, a);
                                lemma_lookup_take_step(targets@, k as int, a);
                                lemma_seq_push_contains(
                                    crate::cache::remove_addr(pb, addr),
                                    addr,
                                    a,
                                );
                                if a != addr {
                                    assert(pb.contains(a));
                                }
                            }
                            assert forall|a: Addr|
                                !(#[trigger] keys(targets@.take(k + 1)).contains(a)) implies ((
                                self.cache.pending_addrs().contains(a) <==> p0.contains(a)) && (
                                self.cache.ready_addrs().contains(a) <==> r0.contains(a))) by {
                                lemma_keys_take_step(targets@, k as int, a);
                                lemma_seq_push_contains(
                                    crate::cache::remove_addr(pb, addr),
                                    addr,
                                    a,
                                );
                                assert(a != addr);
                                assert((pb.contains(a) <==> p0.contains(a)) && (rb.contains(a)
                                    <==> r0.contains(a)));
                            }
                        }
                        changed = true;
                    }
                },
                None => {
                    proof {
                        assert forall|l: int|
                            0 <= l < keys(regb).len() implies keys(regb)[l] != addr by {
                            assert(keys(regb)[l] == regb[l].0);
                        }
                        assert(!keys(regb).contains(addr));
                        lemma_lookup_some_iff(regb, addr);
                    }
                    self.registry.push((addr, target));
                    let svc = self.new_endpoint.new_endpoint(addr, target);
                    self.cache.push(addr, svc);
                    proof {
                        assert(keys(self.registry@) =~= keys(regb).push(addr));
                        crate::cache::lemma_push_distinct(keys(regb), addr);
                        assert(self.registry@.last() == (addr, target));
                        assert(self.registry@.drop_last() =~= regb);
                        assert forall|a: Addr|
                            #[trigger] lookup(self.registry@, a) == (match lookup(
                                targets@.take(k + 1),
                                a,
                            ) {
                                Some(t) => Some(t),
                                None => lookup(reg0, a),
                            }) by {
                            lemma_lookup_take_step(targets@, k as int, a);
                        }
                        assert forall|a: Addr|
                            #[trigger] keys(self.registry@).contains(a) <==> (keys(reg0).contains(
                                a,
                            ) || keys(targets@.take(k + 1)).contains(a)) by {
                            lemma_keys_take_step(targets@, k as int, a);
                        }
                        if !changed {
                            assert(regb == reg0);
                            assert(lookup(reg0, addr) != Some(target));
                        }
                        assert(keys(self.registry@)[keys(regb).len() as int] == addr);
                        assert(keys(self.registry@).contains(addr));
                        assert forall|x: Addr|
                            #[trigger] self.cache.contains_addr(x) implies keys(
                            self.registry@,
                        ).contains(x) by {
                            if x != addr {
                                assert(pb.contains(x) || rb.contains(x));
                                assert(keys(regb).contains(x));
                            }
                        }
                        assert forall|x: Addr|
                            (p0.contains(x) || r0.contains(x)) implies
                            #[trigger] self.cache.contains_addr(x) by {
                            assert(pb.contains(x) || rb.contains(x));
                        }
                        if coh0 {
                            assert forall|a: Addr|
                                #[trigger] keys(self.registry@).contains(a) implies self
                                .cache.contains_addr(a) by {
                                if a != addr {
                                    assert(keys(regb).contains(a));
                                    assert(pb.contains(a) || rb.contains(a));
                                }
                            }
                        }
                        crate::cache::lemma_remove_addr(pb, addr);
                        crate::cache::lemma_remove_addr(rb, addr);
                        assert forall|x: Addr|
                            #[trigger] self.cache.ready_addrs().contains(x) implies r0.contains(
                            x,
                        ) by {
                            assert(x != addr);
                            assert(rb.contains(x));
                        }
                        assert forall|a: Addr|
                            (#[trigger] keys(targets@.take(k + 1)).contains(a)) && lookup(
                            targets@.take(k + 1),
                            a,
                            ) != lookup(reg0, a) implies self.cache.pending_addrs().contains(
                            a,
                        ) by {
                            lemma_keys_take_step(targets@, k as int, a);
                            lemma_lookup_take_step(targets@, k as int, a);
                            lemma_seq_push_contains(
                            crate::cache::remove_addr(pb, addr),
                            addr,
                            a,
                            );
                            if a != addr {
                            assert(pb.contains(a));
                            }
                        }
                        assert forall|a: Addr|
                            !(#[trigger] keys(targets@.take(k + 1)).contains(a)) implies ((
                            self.cache.pending_addrs().contains(a) <==> p0.contains(a)) && (
                            self.cache.ready_addrs().contains(a) <==> r0.contains(a))) by {
                            lemma_keys_take_step(targets@, k as int, a);
                            lemma_seq_push_contains(
                            crate::cache::remove_addr(pb, addr),
                            addr,
                            a,
                            );
                            assert(a != addr);
                            assert((pb.contains(a) <==> p0.contains(a)) && (rb.contains(a)
                            <==> r0.contains(a)));
                        }
                    }
                    changed = true;
                },
            }
            k = k + 1;
        }
        let n = self.registry.len();
        self.metrics.endpoints = n;
        proof {
            assert(targets@.take(k as int) =~= targets@);
            if coh0 {
                assert forall|a: Addr| #[trigger]
                    final(self).in_registry(a) <==> final(self).contains_endpoint(a) by {
                    if final(self).contains_endpoint(a) {
                        assert(self.cache.contains_addr(a));
                    }
                    if final(self).in_registry(a) {
                        assert(self.cache.contains_addr(a));
                    }
                }
            }
            assert forall|a: Addr|
                (#[trigger] keys(targets@).contains(a)) && lookup(targets@, a) != lookup(
                    reg0,
                    a,
                ) implies final(self).pending_addrs().contains(a) by {
                assert(keys(targets@.take(k as int)).contains(a) && lookup(
                    targets@.take(k as int),
                    a,
                ) != lookup(reg0, a) ==> self.cache.pending_addrs().contains(a));
            }
            assert forall|a: Addr|
                !(#[trigger] keys(targets@).contains(a)) implies ((final(self).pending_addrs().contains(a) <==> p0.contains(a)) && (final(self).ready_addrs().contains(a) <==> r0.contains(a))) by {
                assert(!keys(targets@.take(k as int)).contains(a) ==> ((
                self.cache.pending_addrs().contains(a) <==> p0.contains(a)) && (
                self.cache.ready_addrs().contains(a) <==> r0.contains(a))));
            }
        }
        changed
    }

    /// Deletes these addresses from the membership, evicting their
    /// endpoints; unknown addresses are a no-op. Reports whether the cache
    /// was mutated.
    fn remove(&mut self, addrs: Vec<Addr>) -> (changed: bool)
        requires
            old(self).base_wf(),
        ensures
            final(self).base_wf(),
            forall|a: Addr|
                #[trigger] final(self).target_of(a) == (if addrs@.contains(a) {
                    Option::<u64>::None
                } else {
                    old(self).target_of(a)
                }),
            forall|a: Addr|
                #[trigger] final(self).in_registry(a) <==> (old(self).in_registry(a)
                    && !addrs@.contains(a)),
            changed == (exists|j: int|
                0 <= j < addrs@.len() && old(self).in_registry(#[trigger] addrs@[j])),
            !changed ==> final(self).pending_addrs() == old(self).pending_addrs(),
            !changed ==> final(self).ready_addrs() == old(self).ready_addrs(),
            !changed ==> final(self).registry_seq() == old(self).registry_seq(),
            forall|a: Addr| #[trigger] addrs@.contains(a) ==> !final(self).contains_endpoint(a),
            forall|a: Addr|
                !(#[trigger] addrs@.contains(a)) ==> ((final(self).pending_addrs().contains(a)
                    <==> old(self).pending_addrs().contains(a)) && (final(self).ready_addrs().contains(a) <==> old(self).ready_addrs().contains(a))),
            old(self).coherent() ==> final(self).coherent(),
            final(self).selection() == old(self).selection(),
            final(self).metrics_spec() == (P2cMetrics {
                endpoints: final(self).registry_len() as usize,
                ..old(self).metrics_spec()
            }),
    {
        let ghost reg0 = self.registry@;
        let ghost p0 = self.cache.pending_addrs();
        let ghost r0 = self.cache.ready_addrs();
        let ghost coh0 = old(self).coherent();
        proof {
            if coh0 {
                assert forall|a: Addr|
                    #[trigger] keys(self.registry@).contains(a) implies self.cache.contains_addr(
                    a,
                ) by {
                    assert(old(self).in_registry(a));
                    assert(old(self).contains_endpoint(a));
                }
            }
        }
        let mut changed = false;
        let mut k: usize = 0;
        while k < addrs.len()
            invariant
                reg0 == old(self).registry@,
                p0 == old(self).cache.pending_addrs(),
                r0 == old(self).cache.ready_addrs(),
                coh0 == old(self).coherent(),
                old(self).base_wf(),
                self.metrics == old(self).metrics,
                self.next_idx == old(self).next_idx,
                k <= addrs@.len(),
                keys(self.registry@).no_duplicates(),
                forall|a: Addr|
                    #[trigger] lookup(self.registry@, a) == (if addrs@.take(k as int).contains(a) {
                        Option::<u64>::None
                    } else {
                        lookup(reg0, a)
                    }),
                forall|a: Addr|
                    #[trigger] keys(self.registry@).contains(a) <==> (keys(reg0).contains(a)
                        && !addrs@.take(k as int).contains(a)),
                self.cache.wf(),
                forall|x: Addr|
                    #[trigger] self.cache.contains_addr(x) ==> keys(self.registry@).contains(x),
                coh0 ==> (forall|a: Addr|
                    #[trigger] keys(self.registry@).contains(a) ==> self.cache.contains_addr(a)),
                forall|a: Addr|
                    #[trigger] addrs@.take(k as int).contains(a) ==> !self.cache.contains_addr(a),
                forall|a: Addr|
                    !(#[trigger] addrs@.take(k as int).contains(a)) ==> ((
                    self.cache.pending_addrs().contains(a) <==> p0.contains(a)) && (
                    self.cache.ready_addrs().contains(a) <==> r0.contains(a))),
                changed == (exists|j: int|
                    0 <= j < k && keys(reg0).contains(#[trigger] addrs@[j])),
                !changed ==> self.registry@ == reg0,
                !changed ==> self.cache.pending_addrs() == p0 && self.cache.ready_addrs() == r0,
            decreases addrs@.len() - k,
        {
            let a = addrs[k];
            let ghost regb = self.registry@;
            let ghost pb = self.cache.pending_addrs();
            let ghost rb = self.cache.ready_addrs();
            proof {
                assert(addrs@.take(k + 1) =~= addrs@.take(k as int).push(a));
                assert forall|x: Addr|
                    #[trigger] lookup(regb, x) == (if addrs@.take(k as int).contains(x) {
                        Option::<u64>::None
                    } else {
                        lookup(reg0, x)
                    }) by {
                    assert(lookup(self.registry@, x) == (if addrs@.take(k as int).contains(x) {
                        Option::<u64>::None
                    } else {
                        lookup(reg0, x)
                    }));
                }
                assert forall|x: Addr|
                    #[trigger] keys(regb).contains(x) <==> (keys(reg0).contains(x) && !addrs@.take(
                        k as int,
                    ).contains(x)) by {
                    assert(keys(self.registry@).contains(x) <==> (keys(reg0).contains(x)
                        && !addrs@.take(k as int).contains(x)));
                }
                assert forall|x: Addr|
                    #![trigger pb.contains(x)]
                    #![trigger rb.contains(x)]
                    (pb.contains(x) || rb.contains(x)) ==> keys(regb).contains(x) by {
                    if pb.contains(x) || rb.contains(x) {
                        assert(self.cache.contains_addr(x));
                        assert(keys(self.registry@).contains(x));
                    }
                }
                if coh0 {
                    assert forall|x: Addr|
                        #[trigger] keys(regb).contains(x) implies (pb.contains(x) || rb.contains(
                        x,
                    )) by {
                        assert(keys(self.registry@).contains(x));
                        assert(self.cache.contains_addr(x));
                    }
                }
                assert forall|x: Addr|
                    #[trigger] addrs@.take(k as int).contains(x) implies !(pb.contains(x)
                        || rb.contains(x)) by {
                    assert(!self.cache.contains_addr(x));
                }
                assert forall|x: Addr|
                    !(#[trigger] addrs@.take(k as int).contains(x)) implies ((pb.contains(x) <==> p0.contains(
                        x,
                    )) && (rb.contains(x) <==> r0.contains(x))) by {
                    assert(self.cache.pending_addrs().contains(x) <==> p0.contains(x));
                    assert(self.cache.ready_addrs().contains(x) <==> r0.contains(x));
                }
            }
            match position(&self.registry, a) {
                Some(i) => {
                    proof {
                        assert(keys(regb)[i as int] == a);
                        assert(keys(regb).contains(a));
                        assert(keys(reg0).contains(a));
                    }
                    self.registry.remove(i);
                    let _ = self.cache.evict(a);
                    proof {
                        assert(keys(self.registry@) =~= keys(regb).remove(i as int));
                        crate::cache::lemma_remove_keeps_distinct(keys(regb), i as int);
                        crate::cache::lemma_remove_addr(pb, a);
                        crate::cache::lemma_remove_addr(rb, a);
                        assert forall|x: Addr|
                            #[trigger] self.cache.contains_addr(x) implies keys(
                            self.registry@,
                        ).contains(x) by {
                            assert(x != a);
                            assert(pb.contains(x) || rb.contains(x));
                            assert(keys(regb).contains(x));
                        }
                        if coh0 {
                            assert forall|x: Addr|
                                #[trigger] keys(self.registry@).contains(x) implies self
                                .cache.contains_addr(x) by {
                                assert(keys(regb).contains(x));
                                assert(x != a);
                                assert(pb.contains(x) || rb.contains(x));
                            }
                        }
                        assert forall|x: Addr|
                            #[trigger] lookup(self.registry@, x) == (if addrs@.take(
                                k + 1,
                            ).contains(x) {
                                Option::<u64>::None
                            } else {
                                lookup(reg0, x)
                            }) by {
                            lemma_seq_push_contains(addrs@.take(k as int), a, x);
                            if x == a {
                                lemma_lookup_some_iff(self.registry@, x);
                            } else {
                                if keys(self.registry@).contains(x) {
                                    let l = choose|l: int|
                                        0 <= l < keys(self.registry@).len() && keys(
                                            self.registry@,
                                        )[l] == x;
                                    lemma_lookup_at_key(self.registry@, l);
                                    if l < i {
                                        assert(self.registry@[l] == regb[l]);
                                        lemma_lookup_at_key(regb, l);
                                    } else {
                                        assert(self.registry@[l] == regb[l + 1]);
                                        lemma_lookup_at_key(regb, l + 1);
                                    }
                                } else {
                                    lemma_lookup_some_iff(self.registry@, x);
                                    lemma_lookup_some_iff(regb, x);
                                }
                            }
                        }
                        assert forall|x: Addr|
                            #[trigger] keys(self.registry@).contains(x) <==> (keys(reg0).contains(
                                x,
                            ) && !addrs@.take(k + 1).contains(x)) by {
                            lemma_seq_push_contains(addrs@.take(k as int), a, x);
                        }
                        assert forall|x: Addr|
                            #[trigger] addrs@.take(k + 1).contains(x) implies !self
                            .cache.contains_addr(x) by {
                            lemma_seq_push_contains(addrs@.take(k as int), a, x);
                            if x != a {
                                assert(!(pb.contains(x) || rb.contains(x)));
                            }
                        }
                        assert forall|x: Addr|
                            !(#[trigger] addrs@.take(k + 1).contains(x)) implies ((
                            self.cache.pending_addrs().contains(x) <==> p0.contains(x)) && (
                            self.cache.ready_addrs().contains(x) <==> r0.contains(x))) by {
                            lemma_seq_push_contains(addrs@.take(k as int), a, x);
                            assert(x != a);
                            assert((pb.contains(x) <==> p0.contains(x)) && (rb.contains(x) <==> r0.contains(
                                x,
                            )));
                        }
                    }
                    changed = true;
                },
                None => {
                    proof {
                        assert forall|l: int|
                            0 <= l < keys(regb).len() implies keys(regb)[l] != a by {
                            assert(keys(regb)[l] == regb[l].0);
                        }
                        assert(!keys(regb).contains(a));
                        assert forall|x: Addr|
                            #[trigger] lookup(self.registry@, x) == (if addrs@.take(
                                k + 1,
                            ).contains(x) {
                                Option::<u64>::None
                            } else {
                                lookup(reg0, x)
                            }) by {
                            lemma_seq_push_contains(addrs@.take(k as int), a, x);
                            if x == a {
                                lemma_lookup_some_iff(regb, a);
                            }
                        }
                        assert forall|x: Addr|
                            #[trigger] keys(self.registry@).contains(x) <==> (keys(reg0).contains(
                                x,
                            ) && !addrs@.take(k + 1).contains(x)) by {
                            lemma_seq_push_contains(addrs@.take(k as int), a, x);
                        }
                        if keys(reg0).contains(a) {
                            assert(addrs@.take(k as int).contains(a));
                            let j = choose|j: int|
                                0 <= j < k && addrs@.take(k as int)[j] == a;
                            assert(addrs@[j] == a);
                        }
                        assert(!self.cache.contains_addr(a)) by {
                            if self.cache.contains_addr(a) {
                                assert(keys(self.registry@).contains(a));
                            }
                        }
                        assert forall|x: Addr|
                            #[trigger] addrs@.take(k + 1).contains(x) implies !self
                            .cache.contains_addr(x) by {
                            lemma_seq_push_contains(addrs@.take(k as int), a, x);
                            if x != a {
                                assert(!(pb.contains(x) || rb.contains(x)));
                            }
                        }
                        assert forall|x: Addr|
                            !(#[trigger] addrs@.take(k + 1).contains(x)) implies ((
                            self.cache.pending_addrs().contains(x) <==> p0.contains(x)) && (
                            self.cache.ready_addrs().contains(x) <==> r0.contains(x))) by {
                            lemma_seq_push_contains(addrs@.take(k as int), a, x);
                            assert((pb.contains(x) <==> p0.contains(x)) && (rb.contains(x) <==> r0.contains(
                                x,
                            )));
                        }
                    }
                },
            }
            k = k + 1;
        }
        let n = self.registry.len();
        self.metrics.endpoints = n;
        proof {
            assert(addrs@.take(k as int) =~= addrs@);
            if coh0 {
                assert forall|a: Addr| #[trigger]
                    final(self).in_registry(a) <==> final(self).contains_endpoint(a) by {
                    if final(self).contains_endpoint(a) {
                        assert(self.cache.contains_addr(a));
                    }
                    if final(self).in_registry(a) {
                        assert(self.cache.contains_addr(a));
                    }
                }
            }
            assert forall|a: Addr| #[trigger] addrs@.contains(a) implies !final(self).contains_endpoint(a) by {
                assert(addrs@.take(k as int).contains(a) ==> !self.cache.contains_addr(a));
            }
            assert forall|a: Addr|
                !(#[trigger] addrs@.contains(a)) implies ((final(self).pending_addrs().contains(a)
                    <==> p0.contains(a)) && (final(self).ready_addrs().contains(a) <==> r0.contains(
                    a,
                ))) by {
                assert(!addrs@.take(k as int).contains(a) ==> ((self.cache.pending_addrs().contains(
                    a,
                ) <==> p0.contains(a)) && (self.cache.ready_addrs().contains(a) <==> r0.contains(
                    a,
                ))));
            }
        }
        changed
    }

    /// Empties the pool: every endpoint is evicted and the registry cleared.
    /// Reports whether anything was present.
    fn clear(&mut self) -> (changed: bool)
        requires
            old(self).base_wf(),
        ensures
            final(self).base_wf(),
            final(self).registry_len() == 0,
            forall|a: Addr| (#[trigger] final(self).target_of(a)) is None,
            final(self).pending_addrs() == Seq::<Addr>::empty(),
            final(self).ready_addrs() == Seq::<Addr>::empty(),
            changed == (old(self).registry_len() > 0),
            !changed ==> final(self).pending_addrs() == old(self).pending_addrs(),
            !changed ==> final(self).ready_addrs() == old(self).ready_addrs(),
            final(self).coherent(),
            final(self).selection() == old(self).selection(),
            final(self).metrics_spec() == (P2cMetrics {
                endpoints: 0,
                ..old(self).metrics_spec()
            }),
    {
        let changed = self.registry.len() > 0;
        while self.registry.len() > 0
            invariant
                old(self).base_wf(),
                self.metrics == old(self).metrics,
                self.next_idx == old(self).next_idx,
                keys(self.registry@).no_duplicates(),
                self.cache.wf(),
                forall|x: Addr|
                    #[trigger] self.cache.contains_addr(x) ==> keys(self.registry@).contains(x),
            decreases self.registry@.len(),
        {
            let ghost regb = self.registry@;
            let ghost pb = self.cache.pending_addrs();
            let ghost rb = self.cache.ready_addrs();
            proof {
                assert forall|x: Addr|
                    #![trigger pb.contains(x)]
                    #![trigger rb.contains(x)]
                    (pb.contains(x) || rb.contains(x)) ==> keys(regb).contains(x) by {
                    if pb.contains(x) || rb.contains(x) {
                        assert(self.cache.contains_addr(x));
                        assert(keys(self.registry@).contains(x));
                    }
                }
            }
            match self.registry.pop() {
                Some(pair) => {
                    let _ = self.cache.evict(pair.0);
                    proof {
                        crate::cache::lemma_remove_addr(pb, pair.0);
                        crate::cache::lemma_remove_addr(rb, pair.0);
                        assert(keys(self.registry@) =~= keys(regb).drop_last());
                        assert(regb.last() == pair);
                        assert forall|x: Addr|
                            #[trigger] self.cache.contains_addr(x) implies keys(
                            self.registry@,
                        ).contains(x) by {
                            assert(x != pair.0);
                            assert(pb.contains(x) || rb.contains(x));
                            assert(keys(regb).contains(x));
                            let l = choose|l: int|
                                0 <= l < keys(regb).len() && keys(regb)[l] == x;
                            assert(keys(regb)[keys(regb).len() - 1] == pair.0);
                            assert(l < keys(regb).len() - 1);
                            assert(keys(self.registry@)[l] == x);
                        }
                    }
                },
                None => {},
            }
        }
        self.metrics.endpoints = 0;
        proof {
            assert(keys(self.registry@).len() == 0);
            assert forall|x: Addr| !(#[trigger] self.cache.contains_addr(x)) by {
                if self.cache.contains_addr(x) {
                    assert(keys(self.registry@).contains(x));
                }
            }
            assert(self.cache.pending_addrs() =~= Seq::<Addr>::empty()) by {
                if self.cache.pending_addrs().len() > 0 {
                    assert(self.cache.pending_addrs().contains(self.cache.pending_addrs()[0]));
                    assert(self.cache.contains_addr(self.cache.pending_addrs()[0]));
                }
            }
            assert(self.cache.ready_addrs() =~= Seq::<Addr>::empty()) by {
                if self.cache.ready_addrs().len() > 0 {
                    assert(self.cache.ready_addrs().contains(self.cache.ready_addrs()[0]));
                    assert(self.cache.contains_addr(self.cache.ready_addrs()[0]));
                }
            }
            if old(self).registry_len() == 0 {
                assert(old(self).pending_addrs() =~= Seq::<Addr>::empty()) by {
                    if old(self).pending_addrs().len() > 0 {
                        assert(old(self).cache.pending_addrs().contains(
                            old(self).cache.pending_addrs()[0],
                        ));
                        assert(old(self).cache.contains_addr(old(self).cache.pending_addrs()[0]));
                        assert(keys(old(self).registry@).contains(
                            old(self).cache.pending_addrs()[0],
                        ));
                    }
                }
                assert(old(self).ready_addrs() =~= Seq::<Addr>::empty()) by {
                    if old(self).ready_addrs().len() > 0 {
                        assert(old(self).cache.ready_addrs().contains(
                            old(self).cache.ready_addrs()[0],
                        ));
                        assert(old(self).cache.contains_addr(old(self).cache.ready_addrs()[0]));
                        assert(keys(old(self).registry@).contains(
                            old(self).cache.ready_addrs()[0],
                        ));
                    }
                }
            }
        }
        changed
    }

    /// Applies one discovery update: counts it, translates it into minimal
    /// registry and cache mutations, and clears the reserved selection if
    /// anything moved. The gauge equals the membership count afterwards, and
    /// exactly the counter of the update's variant moves, by one.
    pub fn update_pool(&mut self, update: Update)
        requires
            old(self).wf(),
        ensures
            final(self).wf(),
            final(self).metrics_spec().endpoints == final(self).registry_len(),
            final(self).metrics_spec().updates_reset == if update is Reset {
                bumped(old(self).metrics_spec().updates_reset)
            } else {
                old(self).metrics_spec().updates_reset
            },
            final(self).metrics_spec().updates_add == if update is Add {
                bumped(old(self).metrics_spec().updates_add)
            } else {
                old(self).metrics_spec().updates_add
            },
            final(self).metrics_spec().updates_rm == if update is Remove {
                bumped(old(self).metrics_spec().updates_rm)
            } else {
                old(self).metrics_spec().updates_rm
            },
            final(self).metrics_spec().updates_dne == if update is DoesNotExist {
                bumped(old(self).metrics_spec().updates_dne)
            } else {
                old(self).metrics_spec().updates_dne
            },
            match update {
                Update::Reset(ts) => {
                    &&& forall|a: Addr| #[trigger] final(self).target_of(a) == lookup(ts@, a)
                    &&& forall|a: Addr|
                        #[trigger] final(self).in_registry(a) <==> keys(ts@).contains(a)
                    &&& forall|a: Addr|
                        #[trigger] final(self).ready_addrs().contains(a) ==> old(self).ready_addrs().contains(a)
                    &&& forall|a: Addr|
                        (#[trigger] keys(ts@).contains(a)) && lookup(old(self).registry_seq(), a)
                            != lookup(ts@, a) ==> final(self).pending_addrs().contains(a)
                    &&& forall|a: Addr|
                        !(#[trigger] keys(ts@).contains(a)) ==> !final(self).contains_endpoint(a)
                },
                Update::Add(ts) => {
                    &&& forall|a: Addr|
                        #[trigger] final(self).target_of(a) == (match lookup(ts@, a) {
                            Some(t) => Some(t),
                            None => old(self).target_of(a),
                        })
                    &&& forall|a: Addr|
                        #[trigger] final(self).in_registry(a) <==> (old(self).in_registry(a)
                            || keys(ts@).contains(a))
                    &&& forall|a: Addr|
                        #[trigger] final(self).ready_addrs().contains(a) ==> old(self).ready_addrs().contains(a)
                    &&& forall|a: Addr|
                        (#[trigger] keys(ts@).contains(a)) && lookup(ts@, a) != old(self).target_of(a)
                            ==> final(self).pending_addrs().contains(a)
                    &&& forall|a: Addr|
                        !(#[trigger] keys(ts@).contains(a)) ==> ((final(self).pending_addrs().contains(a)
                            <==> old(self).pending_addrs().contains(a)) && (final(self).ready_addrs().contains(a)
                            <==> old(self).ready_addrs().contains(a)))
                },
                Update::Remove(addrs) => {
                    &&& forall|a: Addr|
                        #[trigger] final(self).target_of(a) == (if addrs@.contains(a) {
                            Option::<u64>::None
                        } else {
                            old(self).target_of(a)
                        })
                    &&& forall|a: Addr|
                        #[trigger] final(self).in_registry(a) <==> (old(self).in_registry(a)
                            && !addrs@.contains(a))
                    &&& forall|a: Addr|
                        #[trigger] addrs@.contains(a) ==> !final(self).contains_endpoint(a)
                    &&& forall|a: Addr|
                        !(#[trigger] addrs@.contains(a)) ==> ((final(self).pending_addrs().contains(a)
                            <==> old(self).pending_addrs().contains(a)) && (final(self).ready_addrs().contains(a)
                            <==> old(self).ready_addrs().contains(a)))
                },
                Update::DoesNotExist => final(self).registry_len() == 0
                    && final(self).pending_addrs().len() == 0
                    && final(self).ready_addrs().len() == 0
                    && forall|a: Addr| (#[trigger] final(self).target_of(a)) is None,
            },
            old(self).coherent() ==> final(self).coherent(),
            update_noop(old(self).registry_seq(), update) ==> {
                &&& final(self).pending_addrs() == old(self).pending_addrs()
                &&& final(self).ready_addrs() == old(self).ready_addrs()
                &&& final(self).registry_seq() == old(self).registry_seq()
                &&& final(self).selection() == old(self).selection()
                &&& forall|a: Addr| #[trigger] final(self).target_of(a) == old(self).target_of(a)
            },
            !update_noop(old(self).registry_seq(), update) ==> final(self).selection() is None,
    {
        let ghost up = update;
        self.metrics.inc(&update);
        let ghost counted = *self;
        proof {
            assert(counted.registry@ == old(self).registry@);
            assert(counted.cache == old(self).cache);
            if old(self).coherent() {
                assert forall|a: Addr| #[trigger]
                    counted.in_registry(a) <==> counted.contains_endpoint(a) by {
                    assert(old(self).in_registry(a) <==> old(self).contains_endpoint(a));
                }
                assert(counted.coherent());
            }
        }
        let changed = match update {
            Update::Reset(targets) => self.reset(targets),
            Update::Add(targets) => self.add(targets),
            Update::Remove(addrs) => self.remove(addrs),
            Update::DoesNotExist => self.clear(),
        };
        let ghost applied = *self;
        if changed {
            self.next_idx = None;
        }
        proof {
            assert(self.registry@ == applied.registry@);
            assert(self.cache == applied.cache);
            assert(self.metrics == applied.metrics);
            assert forall|a: Addr| #[trigger] self.target_of(a) == applied.target_of(a) by {}
            assert forall|a: Addr|
                (#[trigger] self.in_registry(a)) <==> applied.in_registry(a) by {}
            assert forall|a: Addr|
                (#[trigger] self.contains_endpoint(a)) <==> applied.contains_endpoint(a) by {}
            if old(self).coherent() {
                assert forall|a: Addr| #[trigger]
                    self.in_registry(a) <==> self.contains_endpoint(a) by {
                    assert(applied.in_registry(a) <==> applied.contains_endpoint(a));
                }
            }
            let noop = update_noop(old(self).registry_seq(), up);
            match up {
                Update::Reset(ts) => {
                    assert forall|a: Addr| #[trigger] self.target_of(a) == lookup(ts@, a) by {
                        assert(applied.target_of(a) == lookup(ts@, a));
                    }
                    assert forall|a: Addr| #[trigger]
                        self.in_registry(a) <==> keys(ts@).contains(a) by {
                        assert(applied.in_registry(a) <==> keys(ts@).contains(a));
                    }
                    assert(counted.cache == old(self).cache);
                    assert forall|a: Addr|
                        #[trigger] self.ready_addrs().contains(a) implies old(self).ready_addrs().contains(
                        a,
                    ) by {
                        assert(applied.ready_addrs().contains(a) ==> counted.ready_addrs().contains(
                            a,
                        ));
                    }
                    assert forall|a: Addr|
                        (#[trigger] keys(ts@).contains(a)) && lookup(old(self).registry_seq(), a)
                            != lookup(ts@, a) implies self.pending_addrs().contains(a) by {
                        assert(keys(ts@).contains(a) && lookup(counted.registry_seq(), a) != lookup(
                            ts@,
                            a,
                        ) ==> applied.pending_addrs().contains(a));
                    }
                    assert forall|a: Addr|
                        !(#[trigger] keys(ts@).contains(a)) implies !self.contains_endpoint(a) by {
                        assert(!keys(ts@).contains(a) ==> !applied.contains_endpoint(a));
                        assert(self.contains_endpoint(a) == applied.contains_endpoint(a));
                    }
                    if noop {
                        assert(reset_noop(counted.registry@, ts@));
                        assert(!changed);
                        assert(applied.registry@ == counted.registry@);
                        assert(self.registry@ == old(self).registry@);
                        assert forall|a: Addr| #[trigger]
                            self.target_of(a) == old(self).target_of(a) by {
                            assert(applied.target_of(a) == lookup(ts@, a));
                            if keys(ts@).contains(a) {
                            } else {
                                lemma_lookup_some_iff(ts@, a);
                                lemma_lookup_some_iff(old(self).registry@, a);
                            }
                        }
                    }
                },
                Update::Add(ts) => {
                    assert forall|a: Addr|
                        #[trigger] self.target_of(a) == (match lookup(ts@, a) {
                            Some(t) => Some(t),
                            None => old(self).target_of(a),
                        }) by {
                        assert(applied.target_of(a) == (match lookup(ts@, a) {
                            Some(t) => Some(t),
                            None => counted.target_of(a),
                        }));
                    }
                    assert forall|a: Addr|
                        #[trigger] self.in_registry(a) <==> (old(self).in_registry(a) || keys(
                            ts@,
                        ).contains(a)) by {
                        assert(applied.in_registry(a) <==> (counted.in_registry(a) || keys(
                            ts@,
                        ).contains(a)));
                    }
                    assert(counted.cache == old(self).cache);
                    assert forall|a: Addr|
                        #[trigger] self.ready_addrs().contains(a) implies old(self).ready_addrs().contains(
                        a,
                    ) by {
                        assert(applied.ready_addrs().contains(a) ==> counted.ready_addrs().contains(
                            a,
                        ));
                    }
                    assert forall|a: Addr|
                        (#[trigger] keys(ts@).contains(a)) && lookup(ts@, a) != old(self).target_of(
                            a,
                        ) implies self.pending_addrs().contains(a) by {
                        assert(keys(ts@).contains(a) && lookup(ts@, a) != counted.target_of(a)
                            ==> applied.pending_addrs().contains(a));
                    }
                    assert forall|a: Addr|
                        !(#[trigger] keys(ts@).contains(a)) implies ((self.pending_addrs().contains(
                            a,
                        ) <==> old(self).pending_addrs().contains(a)) && (self.ready_addrs().contains(
                            a,
                        ) <==> old(self).ready_addrs().contains(a))) by {
                        assert(!keys(ts@).contains(a) ==> ((applied.pending_addrs().contains(a)
                            <==> counted.pending_addrs().contains(a)) && (applied.ready_addrs().contains(
                            a,
                        ) <==> counted.ready_addrs().contains(a))));
                    }
                    if noop {
                        assert(!changed) by {
                            if changed {
                                let j = choose|j: int|
                                    0 <= j < ts@.len() && lookup(
                                        counted.registry@,
                                        (#[trigger] ts@[j]).0,
                                    ) != Some(ts@[j].1);
                            }
                        }
                        assert(applied.registry@ == counted.registry@);
                        assert(self.registry@ == old(self).registry@);
                        assert forall|a: Addr| #[trigger]
                            self.target_of(a) == old(self).target_of(a) by {}
                    }
                },
                Update::Remove(addrs) => {
                    assert forall|a: Addr|
                        #[trigger] self.target_of(a) == (if addrs@.contains(a) {
                            Option::<u64>::None
                        } else {
                            old(self).target_of(a)
                        }) by {
                        assert(applied.target_of(a) == (if addrs@.contains(a) {
                            Option::<u64>::None
                        } else {
                            counted.target_of(a)
                        }));
                    }
                    assert forall|a: Addr|
                        #[trigger] self.in_registry(a) <==> (old(self).in_registry(a)
                            && !addrs@.contains(a)) by {
                        assert(applied.in_registry(a) <==> (counted.in_registry(a)
                            && !addrs@.contains(a)));
                    }
                    assert(counted.cache == old(self).cache);
                    assert forall|a: Addr|
                        #[trigger] addrs@.contains(a) implies !self.contains_endpoint(a) by {
                        assert(addrs@.contains(a) ==> !applied.contains_endpoint(a));
                        assert(self.contains_endpoint(a) == applied.contains_endpoint(a));
                    }
                    assert forall|a: Addr|
                        !(#[trigger] addrs@.contains(a)) implies ((self.pending_addrs().contains(a)
                            <==> old(self).pending_addrs().contains(a)) && (self.ready_addrs().contains(
                            a,
                        ) <==> old(self).ready_addrs().contains(a))) by {
                        assert(!addrs@.contains(a) ==> ((applied.pending_addrs().contains(a)
                            <==> counted.pending_addrs().contains(a)) && (applied.ready_addrs().contains(
                            a,
                        ) <==> counted.ready_addrs().contains(a))));
                    }
                    if noop {
                        assert(!changed) by {
                            if changed {
                                let j = choose|j: int|
                                    0 <= j < addrs@.len() && keys(counted.registry@).contains(
                                        #[trigger] addrs@[j],
                                    );
                            }
                        }
                        assert(applied.registry@ == counted.registry@);
                        assert(self.registry@ == old(self).registry@);
                        assert forall|a: Addr| #[trigger]
                            self.target_of(a) == old(self).target_of(a) by {}
                    }
                },
                Update::DoesNotExist => {
                    if noop {
                        assert(!changed);
                        assert(old(self).registry@.len() == 0);
                        assert(self.registry@ =~= old(self).registry@);
                        assert forall|a: Addr| #[trigger]
                            self.target_of(a) == old(self).target_of(a) by {}
                    }
                },
            }
        }
    }

    /// Reads the load of the ready endpoint at `index` without mutation.
    fn ready_index_load(&self, index: usize) -> (r: u64)
        requires
            index < self.ready_addrs().len(),
    {
        self.cache.get_ready_load(index)
    }

    /// The power-of-two-choices comparison: the less loaded of the two
    /// drawn indices wins, a tie favouring the first draw.
    pub fn pick_less_loaded(aidx: usize, bidx: usize, aload: u64, bload: u64) -> (r: usize)
        ensures
            r == if aload <= bload {
                aidx
            } else {
                bidx
            },
    {
        if aload <= bload {
            aidx
        } else {
            bidx
        }
    }

    /// Picks a ready index by power-of-two-choices: none when nothing is
    /// ready, the sole index when one is, and otherwise the less loaded of
    /// two distinct uniform draws, ties favouring the first.
    fn p2c_ready_index(&mut self) -> (r: Option<usize>)
        requires
            old(self).base_wf(),
        ensures
            final(self).base_wf(),
            final(self).registry_seq() == old(self).registry_seq(),
            final(self).pending_addrs() == old(self).pending_addrs(),
            final(self).ready_addrs() == old(self).ready_addrs(),
            final(self).metrics_spec() == old(self).metrics_spec(),
            final(self).selection() == old(self).selection(),
            r is Some <==> old(self).ready_addrs().len() > 0,
            r is Some ==> r->0 < old(self).ready_addrs().len(),
            old(self).ready_addrs().len() == 1 ==> r == Some(0usize),
    {
        let len = self.cache.ready_len();
        if len == 0 {
            None
        } else if len == 1 {
            Some(0)
        } else {
            let pair = gen_pair(&mut self.rng, len);
            let aidx = pair.0;
            let bidx = pair.1;
            let aload = self.ready_index_load(aidx);
            let bload = self.ready_index_load(bidx);
            Some(Self::pick_less_loaded(aidx, bidx, aload, bload))
        }
    }

    /// Moves pending endpoints to ready: one probing pass over the pending
    /// partition. A failing endpoint has been removed when its error is
    /// surfaced.
    pub fn poll_pool(&mut self) -> (r: PollStatus<E::Error>)
        requires
            old(self).wf(),
        ensures
            final(self).wf(),
            final(self).registry_seq() == old(self).registry_seq(),
            final(self).metrics_spec() == old(self).metrics_spec(),
            final(self).selection() == old(self).selection(),
            final(self).ready_addrs().len() >= old(self).ready_addrs().len(),
            final(self).ready_addrs().take(old(self).ready_addrs().len() as int) == old(self).ready_addrs(),
            match r {
                PollStatus::Ready => {
                    &&& final(self).pending_addrs().len() == 0
                    &&& final(self).ready_addrs() == old(self).ready_addrs() + old(self).pending_addrs()
                },
                PollStatus::Pending => final(self).pending_addrs().len() > 0,
                PollStatus::Failed(a, _) => {
                    &&& old(self).pending_addrs().contains(a)
                    &&& !final(self).contains_endpoint(a)
                },
            },
            old(self).coherent() && !(r is Failed) ==> final(self).coherent(),
    {
        let r = self.cache.poll_pending();
        proof {
            assert forall|x: Addr|
                #[trigger] self.cache.contains_addr(x) implies keys(self.registry@).contains(
                x,
            ) by {
                match r {
                    PollStatus::Failed(a, _) => {
                        assert(old(self).cache.contains_addr(x));
                    },
                    _ => {
                        assert(old(self).cache.contains_addr(x));
                    },
                }
            }
            if old(self).coherent() && !(r is Failed) {
                assert forall|a: Addr| #[trigger]
                    final(self).in_registry(a) <==> final(self).contains_endpoint(a) by {
                    assert(old(self).in_registry(a) <==> old(self).contains_endpoint(a));
                    assert(self.cache.contains_addr(a) <==> old(self).cache.contains_addr(a));
                }
            }
        }
        r
    }

    /// Selects and reserves a ready endpoint for the next dispatch: one
    /// probing pass over the pending partition, then candidates are drawn
    /// and re-checked until one holds (an endpoint reverted to pending is
    /// probed again on the next call). `Ready` leaves a validated selection
    /// behind; `Pending` means no endpoint is ready (the selection is
    /// empty); a failing endpoint is removed and its error surfaced with its
    /// address. The endpoint set never grows: it is preserved exactly, less
    /// the failed address.
    pub fn poll_ready(&mut self) -> (r: PollStatus<E::Error>)
        requires
            old(self).wf(),
        ensures
            final(self).wf(),
            final(self).registry_seq() == old(self).registry_seq(),
            final(self).metrics_spec() == old(self).metrics_spec(),
            !(r is Failed) ==> (forall|x: Addr|
                #[trigger] final(self).contains_endpoint(x) <==> old(self).contains_endpoint(x)),
            match r {
                PollStatus::Ready => final(self).selection() is Some,
                PollStatus::Pending => final(self).selection() is None
                    && final(self).ready_addrs().len() == 0,
                PollStatus::Failed(a, _) => final(self).selection() is None
                    && old(self).contains_endpoint(a)
                    && (forall|x: Addr|
                        #[trigger] final(self).contains_endpoint(x) <==> (old(self).contains_endpoint(x) && x != a)),
            },
    {
        let ghost pre = *self;
        match self.cache.poll_pending() {
            PollStatus::Failed(a, e) => {
                self.next_idx = None;
                proof {
                    assert forall|x: Addr|
                        #[trigger] self.cache.contains_addr(x) implies keys(
                        self.registry@,
                    ).contains(x) by {
                        assert(pre.cache.contains_addr(x));
                    }
                    assert(old(self).contains_endpoint(a));
                    assert forall|x: Addr|
                        #[trigger] self.contains_endpoint(x) <==> (old(self).contains_endpoint(x)
                            && x != a) by {
                        assert(self.cache.contains_addr(x) <==> (pre.cache.contains_addr(x) && x
                            != a));
                        assert(self.contains_endpoint(x) == self.cache.contains_addr(x));
                        assert(old(self).contains_endpoint(x) == old(self).cache.contains_addr(x));
                    }
                }
                return PollStatus::Failed(a, e);
            },
            _ => {
                proof {
                    assert forall|x: Addr|
                        #[trigger] self.cache.contains_addr(x) implies keys(
                        self.registry@,
                    ).contains(x) by {
                        assert(pre.cache.contains_addr(x));
                    }
                    assert forall|x: Addr|
                        #[trigger] self.cache.contains_addr(x) <==> old(self).cache.contains_addr(
                        x,
                    ) by {
                        assert(self.cache.contains_addr(x) <==> pre.cache.contains_addr(x));
                    }
                    if pre.next_idx is Some {
                        assert((pre.next_idx->0 as int) < pre.cache.ready_addrs().len());
                        assert(pre.cache.ready_addrs().len() <= self.cache.ready_addrs().len());
                    }
                }
            },
        }
        loop
            invariant
                self.wf(),
                self.registry@ == old(self).registry@,
                self.metrics == old(self).metrics,
                forall|x: Addr|
                    #[trigger] self.cache.contains_addr(x) <==> old(self).cache.contains_addr(x),
            decreases self.cache.ready_addrs().len(),
        {
            let ghost entry = *self;
            proof {
                assert forall|x: Addr|
                    #[trigger] entry.cache.contains_addr(x) <==> old(self).cache.contains_addr(
                    x,
                ) by {
                    assert(self.cache.contains_addr(x) <==> old(self).cache.contains_addr(x));
                }
            }
            let idx_opt = match self.next_idx {
                Some(i) => {
                    self.next_idx = None;
                    Some(i)
                },
                None => self.p2c_ready_index(),
            };
            let idx = match idx_opt {
                Some(i) => i,
                None => {
                    proof {
                        assert forall|x: Addr|
                            #[trigger] self.contains_endpoint(x) <==> old(self).contains_endpoint(
                            x,
                        ) by {
                            assert(self.cache.pending_addrs() == entry.cache.pending_addrs());
                            assert(self.cache.ready_addrs() == entry.cache.ready_addrs());
                            assert(entry.cache.contains_addr(x) <==> old(self).cache.contains_addr(
                                x,
                            ));
                            assert(self.contains_endpoint(x) == self.cache.contains_addr(x));
                            assert(old(self).contains_endpoint(x) == old(self).cache.contains_addr(
                                x,
                            ));
                        }
                    }
                    return PollStatus::Pending;
                },
            };
            let ghost mid = *self;
            match self.cache.check_ready_index(idx) {
                Ok(true) => {
                    self.next_idx = Some(idx);
                    proof {
                        assert forall|x: Addr|
                            #[trigger] self.cache.contains_addr(x) implies keys(
                            self.registry@,
                        ).contains(x) by {
                            assert(mid.cache.contains_addr(x));
                            assert(keys(mid.registry@).contains(x));
                        }
                        assert forall|x: Addr|
                            #[trigger] self.contains_endpoint(x) <==> old(self).contains_endpoint(
                            x,
                        ) by {
                            assert(self.cache.contains_addr(x) <==> mid.cache.contains_addr(x));
                            assert(mid.cache.pending_addrs() == entry.cache.pending_addrs());
                            assert(mid.cache.ready_addrs() == entry.cache.ready_addrs());
                            assert(entry.cache.contains_addr(x) <==> old(self).cache.contains_addr(
                                x,
                            ));
                            assert(self.contains_endpoint(x) == self.cache.contains_addr(x));
                            assert(old(self).contains_endpoint(x) == old(self).cache.contains_addr(
                                x,
                            ));
                        }
                    }
                    return PollStatus::Ready;
                },
                Ok(false) => {
                    proof {
                        let moved = mid.cache.ready_addrs()[idx as int];
                        crate::cache::lemma_remove_keeps_distinct(
                            mid.cache.ready_addrs(),
                            idx as int,
                        );
                        assert(mid.cache.ready_addrs().contains(moved));
                        assert forall|x: Addr|
                            #[trigger] self.cache.contains_addr(x) implies keys(
                            self.registry@,
                        ).contains(x) by {
                            lemma_seq_push_contains(mid.cache.pending_addrs(), moved, x);
                            assert(mid.cache.contains_addr(x));
                            assert(keys(mid.registry@).contains(x));
                        }
                        assert forall|x: Addr|
                            #[trigger] self.cache.contains_addr(x) <==> old(self).cache.contains_addr(x) by {
                            lemma_seq_push_contains(mid.cache.pending_addrs(), moved, x);
                            assert(self.cache.contains_addr(x) <==> mid.cache.contains_addr(x));
                            assert(mid.cache.pending_addrs() == entry.cache.pending_addrs());
                            assert(mid.cache.ready_addrs() == entry.cache.ready_addrs());
                            assert(entry.cache.contains_addr(x) <==> old(self).cache.contains_addr(
                                x,
                            ));
                        }
                    }
                },
                Err((a, e)) => {
                    proof {
                        crate::cache::lemma_remove_keeps_distinct(
                            mid.cache.ready_addrs(),
                            idx as int,
                        );
                        assert forall|x: Addr|
                            #[trigger] self.cache.contains_addr(x) implies keys(
                            self.registry@,
                        ).contains(x) by {
                            assert(mid.cache.contains_addr(x));
                            assert(keys(mid.registry@).contains(x));
                        }
                        assert(mid.cache.ready_addrs().contains(a)) by {
                            assert(mid.cache.ready_addrs()[idx as int] == a);
                        }
                        assert(mid.cache.pending_addrs() == entry.cache.pending_addrs());
                        assert(mid.cache.ready_addrs() == entry.cache.ready_addrs());
                        assert(entry.cache.contains_addr(a) <==> old(self).cache.contains_addr(a));
                        assert(old(self).contains_endpoint(a));
                        assert forall|x: Addr|
                            #[trigger] self.contains_endpoint(x) <==> (old(self).contains_endpoint(
                                x,
                            ) && x != a) by {
                            assert(self.cache.contains_addr(x) <==> (mid.cache.contains_addr(x)
                                && x != a));
                            assert(entry.cache.contains_addr(x) <==> old(self).cache.contains_addr(
                                x,
                            ));
                            assert(self.contains_endpoint(x) == self.cache.contains_addr(x));
                            assert(old(self).contains_endpoint(x) == old(self).cache.contains_addr(
                                x,
                            ));
                        }
                    }
                    return PollStatus::Failed(a, e);
                },
            }
        }
    }

    /// Dispatches a request through the reserved ready endpoint: the very
    /// index the last readiness signal validated. The selection is consumed
    /// and the endpoint moves back to pending, one request per readiness.
    pub fn call(&mut self, req: E::Req) -> (r: E::Fut)
        requires
            old(self).wf(),
            old(self).selection() is Some,
        ensures
            final(self).wf(),
            final(self).selection() is None,
            final(self).ready_addrs() == old(self).ready_addrs().remove(
                old(self).selection()->0 as int,
            ),
            final(self).pending_addrs() == old(self).pending_addrs().push(
                old(self).ready_addrs()[old(self).selection()->0 as int],
            ),
            final(self).registry_seq() == old(self).registry_seq(),
            final(self).metrics_spec() == old(self).metrics_spec(),
    {
        let idx = self.next_idx.unwrap();
        self.next_idx = None;
        let fut = self.cache.call_ready_index(idx, req);
        proof {
            let moved = old(self).cache.ready_addrs()[idx as int];
            crate::cache::lemma_remove_keeps_distinct(old(self).cache.ready_addrs(), idx as int);
            assert(old(self).cache.ready_addrs().contains(moved));
            assert forall|x: Addr|
                #[trigger] self.cache.contains_addr(x) implies keys(self.registry@).contains(
                x,
            ) by {
                lemma_seq_push_contains(old(self).cache.pending_addrs(), moved, x);
                assert(old(self).cache.contains_addr(x));
            }
        }
        fut
    }
}

} // verus!
