use crate::time_window::TimeWindow;
use vstd::prelude::*;

verus! {

/// The timing of a node: how long it waits before starting an election, and
/// how often a leader sends heartbeats.
#[derive(Debug, Copy, Clone)]
pub struct Config {
    pub election_time_window: TimeWindow,
    pub heartbeat_time_window: TimeWindow,
}

} // verus!
