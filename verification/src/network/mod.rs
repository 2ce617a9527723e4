pub mod p2p;
pub mod security_monitor;
pub mod peer_security;
pub mod tcp;
pub mod p2p_security;
