//! The state of a port, read off the outcome of a connection attempt.
use vstd::prelude::*;
use crate::types::PortStatus;

verus! {

/// How a TCP connection attempt ended.
#[derive(PartialEq, Eq, Structural, Clone, Copy, Debug)]
pub enum ConnectOutcome {
    Connected,
    /// The peer answered with a reset (connection refused).
    Refused,
    /// Any other error.
    Failed,
    /// No answer within the time allowed.
    TimedOut,
}

pub open spec fn outcome_status(o: ConnectOutcome) -> PortStatus {
    match o {
        ConnectOutcome::Connected => PortStatus::Open,
        ConnectOutcome::Refused => PortStatus::Closed,
        ConnectOutcome::Failed => PortStatus::Filtered,
        ConnectOutcome::TimedOut => PortStatus::Filtered,
    }
}

/// A connected port is open, a refused one closed, and one that failed
/// otherwise or did not answer in time is filtered.
pub fn port_status(o: ConnectOutcome) -> (s: PortStatus)
    ensures
        s == outcome_status(o),
{
    match o {
        ConnectOutcome::Connected => PortStatus::Open,
        ConnectOutcome::Refused => PortStatus::Closed,
        _ => PortStatus::Filtered,
    }
}

} // verus!
