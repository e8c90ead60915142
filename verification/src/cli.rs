//! Command-line intent and the discovery plan derived from it.
//!
//! Parsing the command line is the caller's concern; this module takes
//! the five boolean filters as given (their mutual exclusion is enforced
//! by the parser) and decides which discovery paths run.

use vstd::prelude::*;
use crate::IpVersion;

verus! {

/// The caller's intent: which addresses to print.
#[derive(Copy, Clone, Debug, PartialEq, Eq, Structural)]
pub struct Args {
    /// Only print IP addresses local to this machine.
    pub only_local: bool,
    /// Only print IP addresses as seen by a remote service.
    pub only_wan: bool,
    /// Only print IPv4 addresses.
    pub only_4: bool,
    /// Only print IPv6 addresses.
    pub only_6: bool,
    /// Print the reverse DNS entries for the IP addresses.
    pub reverse: bool,
}

/// Which WAN lookups the arguments call for, in launch order.
pub open spec fn spec_wan_strategies(args: Args) -> Seq<IpVersion> {
    if args.only_local {
        Seq::empty()
    } else {
        (if !args.only_6 {
            seq![IpVersion::Ipv4]
        } else {
            Seq::empty()
        }) + (if !args.only_4 {
            seq![IpVersion::Ipv6]
        } else {
            Seq::empty()
        })
    }
}

/// The WAN lookups to run: none in local-only mode, otherwise one per
/// address family that is not filtered out.
pub fn process_args(args: Args) -> (r: Vec<IpVersion>)
    ensures
        r@ == spec_wan_strategies(args),
{
    let mut r: Vec<IpVersion> = Vec::new();
    if args.only_local {
        proof {
            assert(r@ =~= spec_wan_strategies(args));
        }
        return r;
    }
    if !args.only_6 {
        r.push(IpVersion::Ipv4);
    }
    if !args.only_4 {
        r.push(IpVersion::Ipv6);
    }
    proof {
        assert(r@ =~= spec_wan_strategies(args));
    }
    r
}

/// The local-enumeration pass the arguments call for: `None` when no
/// local pass runs, otherwise the address-family filter to apply
/// (`None` inside meaning both families).
pub open spec fn spec_local_strategy(args: Args) -> Option<Option<IpVersion>> {
    if args.only_wan {
        None
    } else if !args.only_6 && args.only_4 {
        Some(Some(IpVersion::Ipv4))
    } else if args.only_6 && !args.only_4 {
        Some(Some(IpVersion::Ipv6))
    } else if !args.only_6 && !args.only_4 {
        Some(None)
    } else {
        None
    }
}

/// Decide the local-enumeration pass. Local enumeration runs unless
/// WAN-only is asked for; the inner filter follows the family flags.
pub fn local_strategy(args: Args) -> (r: Option<Option<IpVersion>>)
    ensures
        r == spec_local_strategy(args),
{
    if args.only_wan {
        None
    } else if !args.only_6 && args.only_4 {
        Some(Some(IpVersion::Ipv4))
    } else if args.only_6 && !args.only_4 {
        Some(Some(IpVersion::Ipv6))
    } else if !args.only_6 && !args.only_4 {
        Some(None)
    } else {
        None
    }
}

} // verus!
