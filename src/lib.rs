//! Parsing of hosts files (`hosts(5)`): lines that map an IP address to one
//! or more hostnames.
pub mod entry;
pub mod file;
pub mod grammar;
pub mod laws;
