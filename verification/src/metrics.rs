//! Per-pool metric tallies: four update counters and a live-endpoint gauge.
//!
//! The pool touches metrics only through these primitives; registering the
//! tallies with an exposition format is left to the embedding program.

use vstd::prelude::*;
use crate::Update;

verus! {

/// Counter increment with the wraparound of a fixed-width cell.
pub open spec fn bumped(c: u64) -> u64 {
    if c == u64::MAX {
        0
    } else {
        (c + 1) as u64
    }
}

/// Metric tallies of one pool.
#[derive(Clone, Copy, PartialEq, Eq, Structural, Debug)]
pub struct P2cMetrics {
    /// The number of endpoints currently in the balancer.
    pub endpoints: usize,
    /// Measures the number of Reset updates received from service discovery.
    pub updates_reset: u64,
    /// Measures the number of Add updates received from service discovery.
    pub updates_add: u64,
    /// Measures the number of Remove updates received from service discovery.
    pub updates_rm: u64,
    /// Measures the number of DoesNotExist updates received from service
    /// discovery.
    pub updates_dne: u64,
}

impl Default for P2cMetrics {
    fn default() -> (r: Self)
        ensures
            r == (P2cMetrics {
                endpoints: 0,
                updates_reset: 0,
                updates_add: 0,
                updates_rm: 0,
                updates_dne: 0,
            }),
    {
        P2cMetrics { endpoints: 0, updates_reset: 0, updates_add: 0, updates_rm: 0, updates_dne: 0 }
    }
}

fn bump(c: u64) -> (r: u64)
    ensures
        r == bumped(c),
{
    if c == u64::MAX {
        0
    } else {
        c + 1
    }
}

impl P2cMetrics {
    /// Counts one received update: exactly the counter of its variant moves,
    /// by one.
    pub fn inc(&mut self, up: &Update)
        ensures
            final(self).endpoints == old(self).endpoints,
            final(self).updates_reset == if up is Reset {
                bumped(old(self).updates_reset)
            } else {
                old(self).updates_reset
            },
            final(self).updates_add == if up is Add {
                bumped(old(self).updates_add)
            } else {
                old(self).updates_add
            },
            final(self).updates_rm == if up is Remove {
                bumped(old(self).updates_rm)
            } else {
                old(self).updates_rm
            },
            final(self).updates_dne == if up is DoesNotExist {
                bumped(old(self).updates_dne)
            } else {
                old(self).updates_dne
            },
    {
        match up {
            Update::Reset(..) => {
                self.updates_reset = bump(self.updates_reset);
            }
            Update::Add(..) => {
                self.updates_add = bump(self.updates_add);
            }
            Update::Remove(..) => {
                self.updates_rm = bump(self.updates_rm);
            }
            Update::DoesNotExist => {
                self.updates_dne = bump(self.updates_dne);
            }
        }
    }
}

} // verus!
