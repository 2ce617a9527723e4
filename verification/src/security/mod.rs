pub mod security_validator;
pub mod privacy;
pub mod global_security_facade;
