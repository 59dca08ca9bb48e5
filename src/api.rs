//! Plain values handed to the administrative interface.
use vstd::prelude::*;
use crate::seqno::INFINITE_METRIC;

verus! {

/// Payload of a request to add a peer: the endpoint to connect to.
pub struct AddPeer {
    pub endpoint: String,
}

/// A route metric as the administrative interface reports it.
#[derive(Debug, Clone, Copy, PartialEq, Eq, Structural)]
pub enum Metric {
    /// A finite metric.
    Value(u16),
    /// The infinite metric of a retracted route.
    Infinite,
}

impl Metric {
    /// The reported form of a raw metric.
    pub fn from_raw(m: u16) -> (r: Metric)
        ensures
            m == INFINITE_METRIC ==> r == Metric::Infinite,
            m != INFINITE_METRIC ==> r == Metric::Value(m),
    {
        if m == INFINITE_METRIC {
            Metric::Infinite
        } else {
            Metric::Value(m)
        }
    }
}

/// A route as the administrative interface reports it.
pub struct Route {
    pub subnet: String,
    pub next_hop: String,
    pub metric: Metric,
    pub seqno: u16,
}

impl Route {
    /// The report of a route with raw metric `metric`.
    pub fn new(subnet: String, next_hop: String, metric: u16, seqno: u16) -> (r: Route)
        ensures
            r.subnet@ == subnet@,
            r.next_hop@ == next_hop@,
            r.metric == Metric::from_raw_spec(metric),
            r.seqno == seqno,
    {
        Route { subnet, next_hop, metric: Metric::from_raw(metric), seqno }
    }
}

impl Metric {
    /// The reported form of raw metric `m`.
    pub open spec fn from_raw_spec(m: u16) -> Metric {
        if m == INFINITE_METRIC {
            Metric::Infinite
        } else {
            Metric::Value(m)
        }
    }
}

/// General information about the node.
pub struct Info {
    pub node_subnet: String,
}

/// The public key of a node.
pub struct PubKey {
    pub public_key: Vec<u8>,
}

} // verus!
