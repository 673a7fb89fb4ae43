use vstd::prelude::*;

verus! {

/// Runtime options of a scan, as the command line hands them over.
#[derive(Clone, Debug)]
pub struct Config {
    /// Suppress the startup banner.
    pub no_banner: bool,
    /// Never emit DNS queries.
    pub no_dns: bool,
    /// Mask addresses, MACs and hostnames in output.
    pub redact: bool,
    /// Output density: 0 full, 1 reduced, 2 raw.
    pub quiet: u8,
    /// Do not listen for interactive stop keys.
    pub disable_input: bool,
}

impl Config {
    pub open spec fn spec_default() -> Config {
        Config { no_banner: false, no_dns: false, redact: false, quiet: 0, disable_input: false }
    }
}

impl Default for Config {
    fn default() -> (c: Config)
        ensures
            c == Config::spec_default(),
    {
        Config { no_banner: false, no_dns: false, redact: false, quiet: 0, disable_input: false }
    }
}

/// The raw transport families a layer-4 channel can capture.
#[derive(Clone, Copy, PartialEq, Eq, Structural, Debug)]
pub enum TransportType {
    TcpLayer4,
    UdpLayer4,
}

/// The probe families a sender may emit.
#[derive(Clone, Copy, PartialEq, Eq, Structural, Debug, Hash)]
pub enum PacketType {
    ARP,
    ICMPv6,
}

/// What is known of the local firewall.
#[derive(Clone, Copy, PartialEq, Eq, Structural, Debug)]
pub enum FirewallStatus {
    Active,
    Inactive,
    NotDetected,
}

} // verus!
