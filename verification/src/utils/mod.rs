pub mod hlc;
