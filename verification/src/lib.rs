//! The host-discovery engine of a network reconnaissance tool.
//!
//! Given IPv4/IPv6 targets — single addresses, inclusive ranges, CIDR
//! blocks or the `lan` keyword — the engine plans and drives three probe
//! strategies: ARP/ICMPv6 on the local segment, TCP-SYN probes for
//! routed targets, and a plain connect fallback, with a reverse-DNS and
//! mDNS pipeline alongside. This crate holds the verified core: the
//! target grammar, the address and interface models, the wire codecs,
//! the scan state machines and the resolver bookkeeping. The sockets,
//! clocks and task plumbing live with the caller, which feeds captured
//! bytes and monotonic timestamps in and carries probe frames out.

pub mod config;
pub mod dnswire;
pub mod error;
pub mod frames;
pub mod handshake;
pub mod host;
pub mod iface;
pub mod ipset;
pub mod iptext;
pub mod local_scan;
pub mod net;
pub mod orchestrate;
pub mod randsrc;
pub mod range;
pub mod redact;
pub mod resolver;
pub mod routed_scan;
pub mod sender;
pub mod services;
pub mod target;
pub mod text;
pub mod timer;
pub mod vendor;
