//! IP address values with optional reverse-DNS annotation.
//!
//! A `MyIp` is either a plain address or an address annotated with the
//! hostname found by a reverse lookup. The address component is fixed at
//! construction: annotating never changes it. The display text is
//! `address` for a plain value and `address (hostname)` for an
//! annotated one.

use vstd::prelude::*;
use crate::addr::IpAddress;

verus! {

/// A hostname obtained from a reverse DNS lookup.
#[derive(Clone, Debug, Eq)]
pub struct ReversedIp(pub String);

impl PartialEq for ReversedIp {
    fn eq(&self, other: &ReversedIp) -> (r: bool) {
        self.0 == other.0
    }
}

impl vstd::std_specs::cmp::PartialEqSpecImpl for ReversedIp {
    open spec fn obeys_eq_spec() -> bool {
        true
    }

    open spec fn eq_spec(&self, other: &ReversedIp) -> bool {
        self.0@ == other.0@
    }
}

impl From<String> for ReversedIp {
    /// Wrap a hostname string.
    fn from(value: String) -> (r: ReversedIp) {
        ReversedIp(value)
    }
}

impl vstd::std_specs::convert::FromSpecImpl<String> for ReversedIp {
    open spec fn obeys_from_spec() -> bool {
        true
    }

    open spec fn from_spec(value: String) -> ReversedIp {
        ReversedIp(value)
    }
}

/// An IP address with or without a reverse-DNS annotation.
#[derive(Clone, Debug, PartialEq, Eq)]
pub enum MyIp {
    /// An address with the hostname its reverse lookup returned.
    Reversed {
        /// The address itself.
        ip: IpAddress,
        /// The hostname of the address.
        reversed: ReversedIp,
    },
    /// An address without an annotation.
    Plain {
        /// The address itself.
        ip: IpAddress,
    },
}

impl MyIp {
    /// The address component, whichever variant holds it.
    pub open spec fn spec_ip(self) -> IpAddress {
        match self {
            MyIp::Reversed { ip, .. } => ip,
            MyIp::Plain { ip } => ip,
        }
    }

    /// Whether this value carries a reverse-DNS annotation.
    pub open spec fn is_annotated(self) -> bool {
        self is Reversed
    }

    /// The display text: the address text, followed by the hostname in
    /// parentheses when one is attached.
    pub open spec fn display_text(self) -> Seq<char> {
        match self {
            MyIp::Reversed { ip, reversed } => ip.text() + seq![' ', '('] + reversed.0@
                + seq![')'],
            MyIp::Plain { ip } => ip.text(),
        }
    }

    /// Attach a hostname to an address.
    pub fn new_reversed(ip: IpAddress, reversed: ReversedIp) -> (r: MyIp)
        ensures
            r == (MyIp::Reversed { ip, reversed }),
            r.spec_ip() == ip,
    {
        MyIp::Reversed { ip, reversed }
    }

    /// Wrap a bare address.
    pub fn new_plain(ip: IpAddress) -> (r: MyIp)
        ensures
            r == (MyIp::Plain { ip }),
            r.spec_ip() == ip,
    {
        MyIp::Plain { ip }
    }

    /// The address component, whichever variant holds it.
    pub fn ip(&self) -> (r: IpAddress)
        ensures
            r == self.spec_ip(),
    {
        match self {
            MyIp::Reversed { ip, .. } => *ip,
            MyIp::Plain { ip } => *ip,
        }
    }

    /// Render the display text.
    pub fn to_display_string(&self) -> (r: String)
        ensures
            r@ == self.display_text(),
    {
        match self {
            MyIp::Plain { ip } => ip.to_text(),
            MyIp::Reversed { ip, reversed } => {
                proof {
                    reveal_strlit(" (");
                    reveal_strlit(")");
                }
                let mut s = ip.to_text();
                s.append(" (");
                s.append(reversed.0.as_str());
                s.append(")");
                proof {
                    assert(s@ =~= self.display_text());
                }
                s
            },
        }
    }
}

} // verus!
