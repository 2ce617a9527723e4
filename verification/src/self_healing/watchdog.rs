use vstd::prelude::*;

use crate::gossip::GossipMessage;
use crate::kv::texts;
use crate::text::{decimal, decimal_string, signed_decimal, signed_decimal_string};

verus! {

/// The services that may be restarted.
pub open spec fn allowed_service_names() -> Seq<Seq<char>> {
    seq!["my_dex_node.service"@, "my_dex_api.service"@, "dex_db_sync.service"@]
}

/// The services that may be restarted.
pub fn allowed_services() -> (res: Vec<String>)
    ensures
        texts(res@) == allowed_service_names(),
{
    let mut v: Vec<String> = Vec::new();
    v.push(String::from_str("my_dex_node.service"));
    v.push(String::from_str("my_dex_api.service"));
    v.push(String::from_str("dex_db_sync.service"));
    assert(texts(v@) =~= allowed_service_names());
    v
}

/// How many restarts are tried before giving up.
pub const MAX_RESTART_ATTEMPTS: u32 = 3;

/// The error for a service that is not on the restart list.
pub open spec fn not_authorized_message() -> Seq<char> {
    "Dienst nicht autorisiert für Neustart"@
}

/// Only services on the restart list may be restarted.
pub fn authorize_restart(service_name: &str) -> (res: Result<(), String>)
    ensures
        res is Ok <==> allowed_service_names().contains(service_name@),
        res matches Err(m) ==> m@ == not_authorized_message(),
{
    let allowed = allowed_services();
    let name = String::from_str(service_name);
    let mut i: usize = 0;
    while i < allowed.len()
        invariant
            texts(allowed@) == allowed_service_names(),
            name@ == service_name@,
            i <= allowed@.len(),
            forall|j: int| 0 <= j < i ==> allowed_service_names()[j] != service_name@,
        decreases allowed@.len() - i,
    {
        if allowed[i] == name {
            assert(allowed_service_names()[i as int] == service_name@);
            return Ok(());
        }
        i = i + 1;
    }
    Err(String::from_str("Dienst nicht autorisiert für Neustart"))
}

/// The error after every restart attempt of `service_name` failed.
pub open spec fn restart_failed_message(service_name: Seq<char>) -> Seq<char> {
    "Restart von '"@ + service_name + "' fehlgeschlagen nach "@ + decimal(MAX_RESTART_ATTEMPTS as nat) + " Versuchen"@
}

/// The error reported once every restart attempt has failed.
pub fn restart_failed(service_name: &str) -> (res: String)
    ensures
        res@ == restart_failed_message(service_name@),
{
    let mut m = String::from_str("Restart von '");
    m.append(service_name);
    m.append("' fehlgeschlagen nach ");
    m.append(decimal_string(MAX_RESTART_ATTEMPTS as u64).as_str());
    m.append(" Versuchen");
    m
}

/// The text signed when reporting a failed service: node, service and time,
/// separated by colons.
pub open spec fn heal_body_spec(node_id: Seq<char>, service_name: Seq<char>, timestamp: i64) -> Seq<char> {
    node_id + seq![':'] + service_name + seq![':'] + signed_decimal(timestamp as int)
}

/// The text signed when reporting a failed service.
pub fn heal_body(node_id: &str, service_name: &str, timestamp: i64) -> (res: String)
    ensures
        res@ == heal_body_spec(node_id@, service_name@, timestamp),
{
    let mut b = String::from_str(node_id);
    b.append(":");
    b.append(service_name);
    b.append(":");
    b.append(signed_decimal_string(timestamp).as_str());
    proof {
        reveal_strlit(":");
    }
    assert(b@ =~= heal_body_spec(node_id@, service_name@, timestamp));
    b
}

/// The gossip notice that `service_name` on `node_id` failed its health
/// check, carrying the signed `body` and its `signature`.
pub fn failure_notice(node_id: &str, service_name: &str, body: String, signature: String) -> (res: GossipMessage)
    ensures
        res.node_id@ == node_id@,
        res.msg_type@ == service_name@ + " failure"@,
        res.target@ == service_name@ + " unresponsive"@,
        res.severity@ == "critical"@,
        res.reason == body,
        res.ttl == 60,
        res.signature == Some(signature),
{
    let mut msg_type = String::from_str(service_name);
    msg_type.append(" failure");
    let mut target = String::from_str(service_name);
    target.append(" unresponsive");
    GossipMessage::new(String::from_str(node_id), msg_type, target, String::from_str("critical"), body, 60, Some(signature))
}

} // verus!
