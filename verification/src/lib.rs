//! Core logic of a network scanner: probe-file parsing, service matching,
//! ICMP packet construction, scan bookkeeping and the result browser's state.
pub mod text;
pub mod probe_file;
pub mod pattern;
pub mod service;
pub mod echo;
pub mod types;
pub mod tcp;
pub mod scan;
pub mod browse;
pub mod look;
