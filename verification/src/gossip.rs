use vstd::prelude::*;

verus! {

/// A network-wide notice spread by gossip (ban notices, service failures).
#[derive(Debug)]
pub struct GossipMessage {
    pub node_id: String,
    pub msg_type: String,
    pub target: String,
    pub severity: String,
    pub reason: String,
    pub ttl: u64,
    pub signature: Option<String>,
}

impl GossipMessage {
    /// A notice from `node_id` of kind `msg_type` about `target`.
    pub fn new(
        node_id: String,
        msg_type: String,
        target: String,
        severity: String,
        reason: String,
        ttl: u64,
        signature: Option<String>,
    ) -> (res: Self)
        ensures
            res.node_id == node_id,
            res.msg_type == msg_type,
            res.target == target,
            res.severity == severity,
            res.reason == reason,
            res.ttl == ttl,
            res.signature == signature,
    {
        GossipMessage { node_id, msg_type, target, severity, reason, ttl, signature }
    }
}

} // verus!
