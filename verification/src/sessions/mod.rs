//! What the session store keeps for a visitor, and when it still counts.

use vstd::prelude::*;

verus! {

/// The seconds a stored session may lie idle and still count.
pub const MAX_SESSION_IDLE_SECONDS: u64 = 1200;

/// The items of an evolving session with the time of its last event.
pub struct DBValue {
    pub session_items: Vec<u64>,
    pub epoch_secs: u64,
}

impl DBValue {
    pub fn new(session_items: Vec<u64>, epoch_secs: u64) -> (value: DBValue)
        ensures
            value.session_items@ == session_items@,
            value.epoch_secs == epoch_secs,
    {
        DBValue { session_items, epoch_secs }
    }

    /// Whether the session still counts at `now`: its last event lies at most
    /// `max_idle_seconds` back.
    pub open spec fn is_live(&self, now: u64, max_idle_seconds: u64) -> bool {
        now - self.epoch_secs <= max_idle_seconds
    }

    /// The items of the session if it still counts at `now`, none otherwise.
    pub fn live_items(self, now: u64, max_idle_seconds: u64) -> (items: Vec<u64>)
        ensures
            items@ == (if self.is_live(now, max_idle_seconds) {
                self.session_items@
            } else {
                Seq::<u64>::empty()
            }),
    {
        if now <= self.epoch_secs || now - self.epoch_secs <= max_idle_seconds {
            self.session_items
        } else {
            Vec::new()
        }
    }
}

} // verus!
