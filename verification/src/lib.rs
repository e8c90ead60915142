//! Discovery of a machine's externally visible and locally assigned IP
//! addresses, with optional reverse-hostname annotation.
//!
//! The verified core covers the decision logic of the discovery pipeline:
//! racing nameserver candidates, caching resolvers per IP version, retrying
//! transient race failures, parsing the self-address answer, fanning out
//! reverse lookups under a bounded concurrency limit, and merging the results
//! into a deduplicated, deterministically ordered report. All network I/O is
//! performed by unverified callers that feed plain values into this crate.

use vstd::prelude::*;

pub mod addr;
pub mod aggregate;
pub mod cache;
pub mod cli;
pub mod fanout;
pub mod local;
pub mod myip;
pub mod parse;
pub mod race;
pub mod retry;
pub mod text;
pub mod wan;

verus! {

/// Selects which address family a resolution path targets.
#[derive(Copy, Clone, Debug, PartialEq, Eq, Structural)]
pub enum IpVersion {
    /// IPv4 address version
    Ipv4,
    /// IPv6 address version
    Ipv6,
}

/// A collection of IP addresses, as one discovery path produces it.
pub type MyIps = Vec<myip::MyIp>;

/// Google's primary nameserver hostname.
pub const GOOGLE_NS1: &'static str = "ns1.google.com";

/// Google's secondary nameserver hostname.
pub const GOOGLE_NS2: &'static str = "ns2.google.com";

/// Google's tertiary nameserver hostname.
pub const GOOGLE_NS3: &'static str = "ns3.google.com";

/// Google's quaternary nameserver hostname.
pub const GOOGLE_NS4: &'static str = "ns4.google.com";

/// The DNS record whose TXT answer echoes the caller's apparent address.
pub const MYADDR_RECORD: &'static str = "o-o.myaddr.l.google.com";

/// Why one discovery path failed.
#[derive(Copy, Clone, Debug, PartialEq, Eq, Structural)]
pub enum PathError {
    /// Every candidate nameserver race failed, retries included.
    NoNameserverReachable,
    /// A nameserver was reached but the lookup itself failed.
    LookupFailed,
}

/// The whole operation failed: every requested discovery path failed.
/// Carries each path's failure, in path order, for diagnostics.
#[derive(Clone, Debug)]
pub struct AllSourcesFailed {
    /// The failure of each requested path.
    pub failures: Vec<PathError>,
}

} // verus!
