//! What the router reports to its host.
use crate::framework::{RootData, RoutingSystem};
use vstd::prelude::*;
use vstd::string::StringExecFns;

verus! {

/// Errors that may affect the stability or the security of the network.
pub enum RoutingError<T: RoutingSystem> {
    /// A signature did not verify: the packet was forged, altered on its way,
    /// or the system is misconfigured. The packet was dropped.
    MACValidationFail { link: T::Link },
}

/// Conditions that the router repaired by itself.
pub enum RoutingWarning<T: RoutingSystem> {
    /// The metric of a link was zero, which could lead to routing loops. It
    /// was set to 1.
    MetricIsZero { link: T::Link },
    /// A neighbour asked for a sequence number more than one step ahead of
    /// this node's own, and the node adopted it. It may have lost its state.
    DesynchronizedSeqno { old_seqno: u16, new_seqno: u16 },
}

impl<T: RoutingSystem> RoutingError<T> {
    /// The error in words.
    pub fn message(&self) -> (text: String)
        ensures
            text@ == "Rejected packet over link, MAC Validation Failed."@,
    {
        String::from_str("Rejected packet over link, MAC Validation Failed.")
    }
}

impl<T: RoutingSystem> RootData for RoutingWarning<T> {
    fn duplicate(&self) -> (c: Self) {
        match self {
            RoutingWarning::MetricIsZero { link } => RoutingWarning::MetricIsZero {
                link: link.duplicate(),
            },
            RoutingWarning::DesynchronizedSeqno { old_seqno, new_seqno } => {
                RoutingWarning::DesynchronizedSeqno { old_seqno: *old_seqno, new_seqno: *new_seqno }
            },
        }
    }
}

} // verus!
