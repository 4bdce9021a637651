//! Membership, gauge and counter behaviour of the update applier.

use std::cell::Cell;
use std::rc::Rc;

use p2c_pool::Addr;
use p2c_pool::Update;
use p2c_pool::cache::{Endpoint, NewEndpoint, Probe};
use p2c_pool::metrics::P2cMetrics;
use p2c_pool::pool::P2cPool;

struct NullEp;

impl Endpoint for NullEp {
    type Req = u32;
    type Fut = u32;
    type Error = String;

    fn probe(&mut self) -> Probe<String> {
        Probe::Pending
    }

    fn load(&self) -> u64 {
        0
    }

    fn dispatch(&mut self, req: u32) -> u32 {
        req
    }
}

struct CountingFactory {
    calls: Rc<Cell<u32>>,
}

impl NewEndpoint<NullEp> for CountingFactory {
    fn new_endpoint(&mut self, _addr: Addr, _target: u64) -> NullEp {
        self.calls.set(self.calls.get() + 1);
        NullEp
    }
}

fn addr(last: u8) -> Addr {
    // 192.168.10.x:80
    Addr::new(0xC0A8_0A00u128 | last as u128, 80)
}

fn new_pool() -> (P2cPool<NullEp, CountingFactory>, Rc<Cell<u32>>) {
    let calls = Rc::new(Cell::new(0));
    let pool = P2cPool::new(P2cMetrics::default(), CountingFactory { calls: calls.clone() });
    (pool, calls)
}

fn check_gauge(pool: &P2cPool<NullEp, CountingFactory>) {
    assert_eq!(pool.metrics().endpoints, pool.endpoints_len());
    // every cached endpoint address sits in one partition exactly once
    assert_eq!(pool.ready_len() + pool.pending_len(), pool.endpoints_len());
}

#[test]
fn update_pool() {
    let addr0 = addr(10); // 192.168.10.10:80
    let addr1 = addr(11); // 192.168.10.11:80
    let (mut pool, _calls) = new_pool();

    pool.update_pool(Update::Reset(vec![(addr0, 0)]));
    assert_eq!(pool.endpoints_len(), 1);
    check_gauge(&pool);
    assert_eq!(pool.get_target(addr0), Some(0));

    pool.update_pool(Update::Add(vec![(addr0, 1)]));
    assert_eq!(pool.endpoints_len(), 1);
    check_gauge(&pool);
    assert_eq!(pool.get_target(addr0), Some(1));

    pool.update_pool(Update::Reset(vec![(addr0, 1)]));
    assert_eq!(pool.endpoints_len(), 1);
    check_gauge(&pool);
    assert_eq!(pool.get_target(addr0), Some(1));

    pool.update_pool(Update::Add(vec![(addr1, 1)]));
    assert_eq!(pool.endpoints_len(), 2);
    check_gauge(&pool);
    assert_eq!(pool.get_target(addr1), Some(1));

    pool.update_pool(Update::Add(vec![(addr1, 1)]));
    assert_eq!(pool.endpoints_len(), 2);
    check_gauge(&pool);
    assert_eq!(pool.get_target(addr1), Some(1));

    pool.update_pool(Update::Remove(vec![addr0]));
    assert_eq!(pool.endpoints_len(), 1);
    check_gauge(&pool);

    pool.update_pool(Update::Remove(vec![addr0]));
    assert_eq!(pool.endpoints_len(), 1);
    check_gauge(&pool);

    pool.update_pool(Update::Reset(vec![(addr0, 2), (addr1, 2)]));
    assert_eq!(pool.endpoints_len(), 2);
    check_gauge(&pool);
    assert_eq!(pool.get_target(addr0), Some(2));
    assert_eq!(pool.get_target(addr1), Some(2));

    pool.update_pool(Update::Reset(vec![(addr0, 2)]));
    assert_eq!(pool.endpoints_len(), 1);
    check_gauge(&pool);
    assert_eq!(pool.get_target(addr0), Some(2));

    pool.update_pool(Update::Reset(vec![(addr0, 3)]));
    assert_eq!(pool.endpoints_len(), 1);
    check_gauge(&pool);
    assert_eq!(pool.get_target(addr0), Some(3));

    pool.update_pool(Update::DoesNotExist);
    assert_eq!(pool.endpoints_len(), 0);
    check_gauge(&pool);

    pool.update_pool(Update::DoesNotExist);
    assert_eq!(pool.endpoints_len(), 0);
    check_gauge(&pool);

    let m = pool.metrics();
    assert_eq!(m.updates_reset, 5);
    assert_eq!(m.updates_add, 3);
    assert_eq!(m.updates_rm, 2);
    assert_eq!(m.updates_dne, 2);
}

#[test]
fn rebuild_on_target_change() {
    let a = addr(10);
    let (mut pool, calls) = new_pool();

    pool.update_pool(Update::Reset(vec![(a, 0)]));
    assert_eq!(calls.get(), 1);
    assert_eq!(pool.metrics().endpoints, 1);

    pool.update_pool(Update::Add(vec![(a, 1)]));
    assert_eq!(calls.get(), 2);
    assert_eq!(pool.metrics().endpoints, 1);
    assert_eq!(pool.get_target(a), Some(1));
}

#[test]
fn reset_twice_builds_once() {
    let a = addr(10);
    let (mut pool, calls) = new_pool();

    pool.update_pool(Update::Reset(vec![(a, 7)]));
    pool.update_pool(Update::Reset(vec![(a, 7)]));
    assert_eq!(calls.get(), 1);
    assert_eq!(pool.endpoints_len(), 1);
    assert_eq!(pool.metrics().endpoints, 1);
    assert_eq!(pool.metrics().updates_reset, 2);
    assert_eq!(pool.get_target(a), Some(7));
}

#[test]
fn registry_cache_coherence() {
    let a0 = addr(1);
    let a1 = addr(2);
    let a2 = addr(3);
    let (mut pool, _calls) = new_pool();

    pool.update_pool(Update::Reset(vec![(a0, 0), (a1, 0)]));
    pool.update_pool(Update::Add(vec![(a2, 4)]));
    pool.update_pool(Update::Remove(vec![a1]));
    pool.update_pool(Update::Reset(vec![(a0, 1), (a2, 4)]));

    assert!(pool.has_endpoint(a0));
    assert!(!pool.has_endpoint(a1));
    assert!(pool.has_endpoint(a2));
    assert_eq!(pool.endpoints_len(), 2);
    check_gauge(&pool);
}

#[test]
fn duplicate_addresses_in_reset_overwrite() {
    let a = addr(10);
    let (mut pool, _calls) = new_pool();

    pool.update_pool(Update::Reset(vec![(a, 1), (a, 2)]));
    assert_eq!(pool.endpoints_len(), 1);
    assert_eq!(pool.get_target(a), Some(2));
    check_gauge(&pool);
}

#[test]
fn remove_unknown_is_noop() {
    let a = addr(10);
    let b = addr(11);
    let (mut pool, calls) = new_pool();

    pool.update_pool(Update::Reset(vec![(a, 0)]));
    pool.update_pool(Update::Remove(vec![b]));
    assert_eq!(pool.endpoints_len(), 1);
    assert_eq!(calls.get(), 1);
    assert_eq!(pool.metrics().updates_rm, 1);
    check_gauge(&pool);
}
