use vstd::prelude::*;

use crate::gossip::GossipMessage;

pub mod config;
pub mod watchdog;

verus! {

/// What to do after a restart attempt.
#[derive(Debug, Clone, Copy, PartialEq, Eq, Structural)]
pub enum RestartStep {
    /// The service is running again.
    Done,
    /// Wait this long, then try again.
    Retry { delay_secs: u64 },
    /// Wait this long, then report failure.
    GiveUp { delay_secs: u64 },
}

/// The step after attempt number `attempt` (counted from 1) of at most
/// `max_attempts`: a failed attempt is followed by a pause of two seconds
/// per attempt made so far.
pub open spec fn restart_step_spec(attempt: u32, max_attempts: u32, succeeded: bool) -> RestartStep {
    if succeeded {
        RestartStep::Done
    } else if attempt < max_attempts {
        RestartStep::Retry { delay_secs: (2 * attempt) as u64 }
    } else {
        RestartStep::GiveUp { delay_secs: (2 * attempt) as u64 }
    }
}

/// Decides the step after a restart attempt.
pub fn restart_step(attempt: u32, max_attempts: u32, succeeded: bool) -> (res: RestartStep)
    requires
        1 <= attempt <= max_attempts,
    ensures
        res == restart_step_spec(attempt, max_attempts, succeeded),
{
    if succeeded {
        RestartStep::Done
    } else if attempt < max_attempts {
        RestartStep::Retry { delay_secs: 2 * (attempt as u64) }
    } else {
        RestartStep::GiveUp { delay_secs: 2 * (attempt as u64) }
    }
}

/// How many restarts are tried before giving up.
pub const MAX_RESTART_ATTEMPTS: u32 = 5;

/// The health check: none is implemented, so every service counts as
/// unhealthy.
pub fn check_service_health(service_name: &str) -> (res: bool)
    ensures
        !res,
{
    false
}

/// The error after all restart attempts failed.
pub open spec fn restart_failed_message() -> Seq<char> {
    "Restart fehlgeschlagen nach 5 Versuchen"@
}

/// The error reported once every restart attempt has failed.
pub fn restart_failed() -> (res: String)
    ensures
        res@ == restart_failed_message(),
{
    String::from_str("Restart fehlgeschlagen nach 5 Versuchen")
}

/// The gossip notice that `service_name` on `node_id` is down.
pub fn service_failure_notice(node_id: &str, service_name: &str) -> (res: GossipMessage)
    ensures
        res.node_id@ == node_id@,
        res.msg_type@ == service_name@ + " failure"@,
        res.target@ == "Service "@ + service_name@ + " is unresponsive"@,
        res.severity@ == "critical"@,
        res.reason@ == "Service "@ + service_name@ + " did not respond in expected time"@,
        res.ttl == 60,
        res.signature matches Some(s) && s@ == "signature_placeholder"@,
{
    let mut msg_type = String::from_str(service_name);
    msg_type.append(" failure");
    let mut target = String::from_str("Service ");
    target.append(service_name);
    target.append(" is unresponsive");
    let mut reason = String::from_str("Service ");
    reason.append(service_name);
    reason.append(" did not respond in expected time");
    GossipMessage::new(
        String::from_str(node_id),
        msg_type,
        target,
        String::from_str("critical"),
        reason,
        60,
        Some(String::from_str("signature_placeholder")),
    )
}

} // verus!
