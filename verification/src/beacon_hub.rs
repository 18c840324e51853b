//! The beacon consumer: it asks for the beacon values of each epoch in
//! order, one at a time, and moves on once a value has come back.
//!
//! [`BeaconHub`] holds the position of the next request; sending the request,
//! waiting for the answer and sleeping are left to the caller.

use vstd::prelude::*;
use crate::model::DagError;
use crate::types_and_const::{Epoch, RandomNum};

verus! {

/// Pause, in milliseconds, before asking again after an error.
pub const RETRY_DELAY_MS: u64 = 200;

/// Position of the next beacon request.
pub struct BeaconHub {
    current_epoch: Epoch,
    current_index: u64,
    beacon_per_epoch: u64,
    beacon_req_delay: u64,
}

/// The slot that follows (epoch, index) when an epoch holds
/// `per_epoch` slots counted from 1.
pub open spec fn next_slot(epoch: int, index: int, per_epoch: int) -> (int, int) {
    if index < per_epoch {
        (epoch, index + 1)
    } else {
        (epoch + 1, 1)
    }
}

impl BeaconHub {
    /// Epoch of the next request.
    pub closed spec fn epoch(&self) -> Epoch {
        self.current_epoch
    }

    /// Index of the next request.
    pub closed spec fn index(&self) -> u64 {
        self.current_index
    }

    /// Number of beacon values per epoch.
    pub closed spec fn per_epoch(&self) -> u64 {
        self.beacon_per_epoch
    }

    /// Pause, in milliseconds, after a value came back.
    pub closed spec fn delay(&self) -> u64 {
        self.beacon_req_delay
    }

    /// The index is counted from 1 and stays within the epoch (or at 1 where
    /// epochs hold no slot), and fits a `usize`.
    pub closed spec fn wf(&self) -> bool {
        &&& 1 <= self.current_index
        &&& self.current_index <= self.beacon_per_epoch || self.current_index == 1
        &&& self.beacon_per_epoch <= usize::MAX
    }

    /// Starts at slot 1 of epoch 0.
    pub fn new(beacon_per_epoch: u64, beacon_req_delay: u64) -> (h: Self)
        requires
            beacon_per_epoch <= usize::MAX,
        ensures
            h.wf(),
            h.epoch() == 0,
            h.index() == 1,
            h.per_epoch() == beacon_per_epoch,
            h.delay() == beacon_req_delay,
    {
        BeaconHub { current_epoch: 0, current_index: 1, beacon_per_epoch, beacon_req_delay }
    }

    /// The (epoch, index) to ask for now.
    pub fn request(&self) -> (r: (Epoch, usize))
        requires
            self.wf(),
        ensures
            r.0 == self.epoch(),
            r.1 == self.index(),
    {
        (self.current_epoch, self.current_index as usize)
    }

    /// Takes the answer to the last request and gives the pause, in
    /// milliseconds, before the next one: after a value the hub moves to the
    /// next slot, after an error it asks for the same slot again.
    pub fn on_result(&mut self, result: &Result<RandomNum, DagError>) -> (pause: u64)
        requires
            old(self).wf(),
            result is Ok && old(self).index() >= old(self).per_epoch() ==> old(self).epoch()
                < u64::MAX,
        ensures
            final(self).wf(),
            final(self).per_epoch() == old(self).per_epoch(),
            final(self).delay() == old(self).delay(),
            match result {
                Ok(_) => {
                    &&& (final(self).epoch() as int, final(self).index() as int) == next_slot(
                        old(self).epoch() as int,
                        old(self).index() as int,
                        old(self).per_epoch() as int,
                    )
                    &&& pause == old(self).delay()
                },
                Err(_) => {
                    &&& final(self).epoch() == old(self).epoch()
                    &&& final(self).index() == old(self).index()
                    &&& pause == RETRY_DELAY_MS
                },
            },
    {
        match result {
            Ok(_) => {
                if self.current_index < self.beacon_per_epoch {
                    self.current_index = self.current_index + 1;
                } else {
                    self.current_epoch = self.current_epoch + 1;
                    self.current_index = 1;
                }
                self.beacon_req_delay
            },
            Err(_) => RETRY_DELAY_MS,
        }
    }
}

} // verus!
