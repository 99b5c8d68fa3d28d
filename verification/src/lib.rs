//! Discovery of the provider subnets that carry a video service's traffic,
//! and the strictly ordered command plan that redirects traffic for those
//! subnets through a VPN tunnel interface.
//!
//! The crate models IPv4 CIDR subnets as plain values, reconciles resolved
//! addresses against a provider catalog, and builds the exact `ip`,
//! `iptables` and `ipset` command lines of the configuration pipeline.
//! All side effects (DNS, HTTP, filesystem, subprocesses) are left to the
//! caller, which feeds plain values in and carries plans out.

pub mod catalog;
pub mod command;
pub mod cidr;
pub mod errors;
pub mod inputs;
pub mod jsontext;
pub mod matcher;
pub mod pipeline;
pub mod rpfilter;
