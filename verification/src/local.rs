//! Filtering locally enumerated addresses.
//!
//! Interface enumeration itself is a collaborator outside this crate;
//! it hands over the addresses it found (or nothing, when it failed —
//! that failure is absorbed, not propagated). This module keeps the
//! addresses the requested family filter admits, in order, each as a
//! plain value.

use vstd::prelude::*;
use crate::IpVersion;
use crate::MyIps;
use crate::addr::IpAddress;
use crate::myip::MyIp;

verus! {

/// Whether the filter admits an address.
pub open spec fn admitted(ip: IpAddress, strategy: Option<IpVersion>) -> bool {
    match strategy {
        Option::None => true,
        Option::Some(v) => ip.spec_version() == v,
    }
}

/// The admitted addresses, in order, each wrapped plain.
pub open spec fn filtered_local(addrs: Seq<IpAddress>, strategy: Option<IpVersion>) -> Seq<MyIp>
    decreases addrs.len(),
{
    if addrs.len() == 0 {
        Seq::empty()
    } else {
        filtered_local(addrs.drop_last(), strategy) + (if admitted(addrs.last(), strategy) {
            seq![MyIp::Plain { ip: addrs.last() }]
        } else {
            Seq::empty()
        })
    }
}

/// Keep the addresses the filter admits, in order, as plain values:
/// no filter keeps everything, a family filter keeps that family alone.
pub fn filter_local_ips(addrs: &Vec<IpAddress>, strategy: Option<IpVersion>) -> (r: MyIps)
    ensures
        r@ == filtered_local(addrs@, strategy),
{
    let mut r: MyIps = Vec::new();
    let mut i: usize = 0;
    proof {
        assert(addrs@.take(0) =~= Seq::empty());
        assert(r@ =~= filtered_local(addrs@.take(0), strategy));
    }
    while i < addrs.len()
        invariant
            i <= addrs@.len(),
            r@ == filtered_local(addrs@.take(i as int), strategy),
        decreases addrs@.len() - i,
    {
        let ip = addrs[i];
        let keep = match strategy {
            Option::None => true,
            Option::Some(IpVersion::Ipv4) => matches!(ip.version(), IpVersion::Ipv4),
            Option::Some(IpVersion::Ipv6) => matches!(ip.version(), IpVersion::Ipv6),
        };
        if keep {
            r.push(MyIp::Plain { ip });
        }
        proof {
            let pre = addrs@.take(i as int);
            let post = addrs@.take(i + 1);
            assert(post.drop_last() =~= pre);
            assert(post.last() == addrs@[i as int]);
            assert(keep == admitted(addrs@[i as int], strategy));
            assert(r@ =~= filtered_local(post, strategy));
        }
        i = i + 1;
    }
    proof {
        assert(addrs@.take(addrs@.len() as int) =~= addrs@);
    }
    r
}

} // verus!
