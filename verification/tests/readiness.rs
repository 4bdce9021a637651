//! Readiness probing, selection stickiness, dispatch and failure cleanup.

use std::cell::Cell;
use std::rc::Rc;

use p2c_pool::Addr;
use p2c_pool::Update;
use p2c_pool::cache::{Endpoint, NewEndpoint, PollStatus, Probe};
use p2c_pool::metrics::P2cMetrics;
use p2c_pool::pool::P2cPool;

#[derive(Clone, Copy, PartialEq, Debug)]
enum Gate {
    Ready,
    Pending,
    Failing,
}

struct Ctl {
    gate: Cell<Gate>,
    load: Cell<u64>,
}

struct MockEp {
    addr: Addr,
    ctl: Rc<Ctl>,
}

impl Endpoint for MockEp {
    type Req = u32;
    type Fut = (Addr, u32);
    type Error = String;

    fn probe(&mut self) -> Probe<String> {
        match self.ctl.gate.get() {
            Gate::Ready => Probe::Ready,
            Gate::Pending => Probe::Pending,
            Gate::Failing => Probe::Failed(String::from("probe failed")),
        }
    }

    fn load(&self) -> u64 {
        self.ctl.load.get()
    }

    fn dispatch(&mut self, req: u32) -> (Addr, u32) {
        // one request per readiness: the endpoint must be re-allowed
        self.ctl.gate.set(Gate::Pending);
        (self.addr, req)
    }
}

struct GatedFactory {
    calls: Rc<Cell<u32>>,
    ctls: Vec<(Addr, Rc<Ctl>)>,
}

impl GatedFactory {
    fn ctl(&self, addr: Addr) -> Rc<Ctl> {
        for (a, c) in &self.ctls {
            if *a == addr {
                return c.clone();
            }
        }
        panic!("unexpected address");
    }
}

impl NewEndpoint<MockEp> for GatedFactory {
    fn new_endpoint(&mut self, addr: Addr, _target: u64) -> MockEp {
        self.calls.set(self.calls.get() + 1);
        MockEp { addr, ctl: self.ctl(addr) }
    }
}

fn addr(last: u8) -> Addr {
    Addr::new(0xC0A8_0A00u128 | last as u128, 80)
}

fn gated_pool(addrs: &[Addr], gate: Gate) -> (P2cPool<MockEp, GatedFactory>, Vec<Rc<Ctl>>) {
    let mut ctls = Vec::new();
    let mut handles = Vec::new();
    for a in addrs {
        let c = Rc::new(Ctl { gate: Cell::new(gate), load: Cell::new(1) });
        handles.push(c.clone());
        ctls.push((*a, c));
    }
    let factory = GatedFactory { calls: Rc::new(Cell::new(0)), ctls };
    (P2cPool::new(P2cMetrics::default(), factory), handles)
}

#[test]
fn p2c_ready_index() {
    let addr0 = addr(10);
    let addr1 = addr(11);
    let addr2 = addr(12);
    let (mut pool, ctls) = gated_pool(&[addr0, addr1, addr2], Gate::Pending);

    // nothing known yet
    assert!(matches!(pool.poll_ready(), PollStatus::Pending));
    assert!(pool.current_selection().is_none());

    pool.update_pool(Update::Reset(vec![(addr0, 0)]));
    assert!(matches!(pool.poll_ready(), PollStatus::Pending));
    assert!(pool.current_selection().is_none());

    ctls[0].gate.set(Gate::Ready);
    assert!(matches!(pool.poll_ready(), PollStatus::Ready));
    assert_eq!(pool.current_selection(), Some(0));

    ctls[1].gate.set(Gate::Ready);
    ctls[2].gate.set(Gate::Ready);
    pool.update_pool(Update::Reset(vec![(addr0, 0), (addr1, 0), (addr2, 0)]));
    assert!(pool.current_selection().is_none());
    assert!(matches!(pool.poll_ready(), PollStatus::Ready));
    assert!(pool.current_selection().is_some());

    let (served, req) = pool.call(9);
    assert_eq!(req, 9);
    assert!(served == addr0 || served == addr1 || served == addr2);

    assert!(matches!(pool.poll_ready(), PollStatus::Ready));
    assert!(pool.current_selection().is_some());
    assert_eq!(pool.ready_len(), 2);
    assert_eq!(pool.pending_len(), 1);

    // the dispatched endpoint reports pending until re-allowed
    assert!(matches!(pool.poll_pool(), PollStatus::Pending));

    for c in &ctls {
        c.gate.set(Gate::Ready);
    }
    assert!(matches!(pool.poll_pool(), PollStatus::Ready));
    assert_eq!(pool.ready_len(), 3);
    assert_eq!(pool.pending_len(), 0);
}

#[test]
fn readiness_stickiness() {
    let addrs = [addr(1), addr(2), addr(3)];
    let (mut pool, _ctls) = gated_pool(&addrs, Gate::Ready);
    pool.update_pool(Update::Reset(vec![(addrs[0], 0), (addrs[1], 0), (addrs[2], 0)]));

    assert!(matches!(pool.poll_ready(), PollStatus::Ready));
    let i = pool.current_selection().expect("a selection is reserved");
    let reserved = pool.ready_addr(i);

    let (served, req) = pool.call(42);
    assert_eq!(req, 42);
    assert_eq!(served, reserved);
    assert!(pool.current_selection().is_none());
    assert_eq!(pool.ready_len(), 2);
    assert_eq!(pool.pending_len(), 1);
}

#[test]
fn all_pending_then_ready() {
    let a = addr(7);
    let (mut pool, ctls) = gated_pool(&[a], Gate::Pending);
    pool.update_pool(Update::Reset(vec![(a, 0)]));

    assert!(matches!(pool.poll_ready(), PollStatus::Pending));
    assert!(pool.current_selection().is_none());

    ctls[0].gate.set(Gate::Ready);
    assert!(matches!(pool.poll_ready(), PollStatus::Ready));
    assert_eq!(pool.current_selection(), Some(0));
}

#[test]
fn mutation_invalidates_selection() {
    let a = addr(1);
    let b = addr(2);
    let (mut pool, _ctls) = gated_pool(&[a, b], Gate::Ready);
    pool.update_pool(Update::Reset(vec![(a, 0)]));

    assert!(matches!(pool.poll_ready(), PollStatus::Ready));
    assert!(pool.current_selection().is_some());

    pool.update_pool(Update::Add(vec![(b, 0)]));
    assert!(pool.current_selection().is_none());

    assert!(matches!(pool.poll_ready(), PollStatus::Ready));
    assert!(pool.current_selection().is_some());
}

#[test]
fn noop_update_keeps_selection() {
    let a = addr(1);
    let (mut pool, _ctls) = gated_pool(&[a], Gate::Ready);
    pool.update_pool(Update::Reset(vec![(a, 0)]));

    assert!(matches!(pool.poll_ready(), PollStatus::Ready));
    assert!(pool.current_selection().is_some());

    pool.update_pool(Update::Reset(vec![(a, 0)]));
    assert!(pool.current_selection().is_some());
}

#[test]
fn failure_cleanup() {
    let good = addr(1);
    let bad = addr(2);
    let (mut pool, ctls) = gated_pool(&[good, bad], Gate::Ready);
    ctls[1].gate.set(Gate::Failing);
    pool.update_pool(Update::Reset(vec![(good, 0), (bad, 0)]));

    match pool.poll_pool() {
        PollStatus::Failed(a, e) => {
            assert_eq!(a, bad);
            assert_eq!(e, "probe failed");
        },
        _ => panic!("the failing endpoint must surface its error"),
    }
    assert!(!pool.has_endpoint(bad));
    assert!(pool.has_endpoint(good));
    assert_eq!(pool.ready_len() + pool.pending_len(), 1);
}

#[test]
fn single_ready_selects_index_zero() {
    let a = addr(5);
    let (mut pool, _ctls) = gated_pool(&[a], Gate::Ready);
    pool.update_pool(Update::Reset(vec![(a, 0)]));
    assert!(matches!(pool.poll_ready(), PollStatus::Ready));
    assert_eq!(pool.current_selection(), Some(0));
    let (served, _) = pool.call(1);
    assert_eq!(served, a);
}

#[test]
fn p2c_prefers_less_loaded() {
    let addrs = [addr(1), addr(2)];
    let (mut pool, ctls) = gated_pool(&addrs, Gate::Ready);
    pool.update_pool(Update::Reset(vec![(addrs[0], 0), (addrs[1], 0)]));
    ctls[0].load.set(100);
    ctls[1].load.set(1);

    // with two ready endpoints both draws land on the pair; the lighter wins
    assert!(matches!(pool.poll_ready(), PollStatus::Ready));
    let i = pool.current_selection().expect("a selection is reserved");
    let chosen = pool.ready_addr(i);
    assert_eq!(chosen, addrs[1]);
}

#[test]
fn pick_prefers_less_loaded_then_first() {
    assert_eq!(P2cPool::<MockEp, GatedFactory>::pick_less_loaded(3, 7, 2, 5), 3);
    assert_eq!(P2cPool::<MockEp, GatedFactory>::pick_less_loaded(3, 7, 9, 5), 7);
    // tie-break favours the first draw
    assert_eq!(P2cPool::<MockEp, GatedFactory>::pick_less_loaded(3, 7, 5, 5), 3);
}
