//! Process-lifetime caches for the discovery bootstrap.
//!
//! Two things are cached per IP version: the resolver object built for
//! WAN queries, and the address each candidate nameserver resolved to.
//! Entries are written once and never invalidated — bootstrap nameserver
//! addresses are effectively static for the life of a process, so
//! staleness is accepted in exchange for skipping repeated round trips.
//!
//! Resolver objects themselves are opaque to this crate; the cache
//! tracks them by a caller-chosen handle. The caller serialises access
//! (a lock or a compute-once cell), and the contracts here say what any
//! serialised history observes: the first stored handle wins.

use vstd::prelude::*;
use crate::IpVersion;
use crate::addr::IpAddress;
use crate::race::NAMESERVER_COUNT;

verus! {

/// The per-version resolver handles, each constructed at most once.
#[derive(Copy, Clone, Debug, PartialEq, Eq, Structural)]
pub struct ResolverCache {
    /// The handle of the IPv4 resolver, once one was made.
    pub v4: Option<u64>,
    /// The handle of the IPv6 resolver, once one was made.
    pub v6: Option<u64>,
}

impl ResolverCache {
    /// The cached handle for a version.
    pub open spec fn entry(self, version: IpVersion) -> Option<u64> {
        match version {
            IpVersion::Ipv4 => self.v4,
            IpVersion::Ipv6 => self.v6,
        }
    }

    /// The cache and returned handle after one `get_or_create`: the
    /// stored handle if there is one, else the freshly built one, now
    /// stored.
    pub open spec fn spec_get_or_create(self, version: IpVersion, fresh: u64) -> (ResolverCache, u64) {
        match self.entry(version) {
            Option::Some(h) => (self, h),
            Option::None => {
                let c = match version {
                    IpVersion::Ipv4 => ResolverCache { v4: Some(fresh), ..self },
                    IpVersion::Ipv6 => ResolverCache { v6: Some(fresh), ..self },
                };
                (c, fresh)
            },
        }
    }

    /// An empty cache: no resolver has been built yet.
    pub fn new() -> (r: ResolverCache)
        ensures
            r.v4 is None,
            r.v6 is None,
    {
        ResolverCache { v4: None, v6: None }
    }

    /// Return the handle for this version, storing `fresh` — the handle
    /// of a resolver the caller just built — only when no handle is
    /// stored yet. The other version's entry is never touched.
    pub fn get_or_create(&mut self, version: IpVersion, fresh: u64) -> (r: u64)
        ensures
            (*final(self), r) == old(self).spec_get_or_create(version, fresh),
    {
        match version {
            IpVersion::Ipv4 => {
                match self.v4 {
                    Option::Some(h) => h,
                    Option::None => {
                        self.v4 = Some(fresh);
                        fresh
                    },
                }
            },
            IpVersion::Ipv6 => {
                match self.v6 {
                    Option::Some(h) => h,
                    Option::None => {
                        self.v6 = Some(fresh);
                        fresh
                    },
                }
            },
        }
    }
}

/// Asking twice for the same version returns the same handle both
/// times, whatever handle the second caller brought along: exactly one
/// construction is kept.
pub proof fn lemma_get_or_create_idempotent(
    c0: ResolverCache,
    version: IpVersion,
    fresh1: u64,
    fresh2: u64,
)
    ensures
        ({
            let (c1, h1) = c0.spec_get_or_create(version, fresh1);
            let (c2, h2) = c1.spec_get_or_create(version, fresh2);
            h2 == h1 && c2 == c1
        }),
{
}

/// The nameserver addresses each version's race has resolved so far,
/// one slot per candidate nameserver.
#[derive(Clone, Debug)]
pub struct NameserverCache {
    /// The IPv4-path entries, one per candidate.
    pub v4: Vec<Option<IpAddress>>,
    /// The IPv6-path entries, one per candidate.
    pub v6: Vec<Option<IpAddress>>,
}

impl NameserverCache {
    /// Both versions hold one slot per candidate nameserver.
    pub open spec fn wf(self) -> bool {
        self.v4@.len() == NAMESERVER_COUNT && self.v6@.len() == NAMESERVER_COUNT
    }

    /// The entry for one candidate under one version.
    pub open spec fn entry(self, version: IpVersion, i: int) -> Option<IpAddress> {
        match version {
            IpVersion::Ipv4 => self.v4@[i],
            IpVersion::Ipv6 => self.v6@[i],
        }
    }

    /// An empty cache: nothing resolved yet.
    pub fn new() -> (r: NameserverCache)
        ensures
            r.wf(),
            forall|version: IpVersion, i: int|
                0 <= i < NAMESERVER_COUNT ==> #[trigger] r.entry(version, i) is None,
    {
        let mut v4: Vec<Option<IpAddress>> = Vec::new();
        let mut v6: Vec<Option<IpAddress>> = Vec::new();
        let mut k: usize = 0;
        while k < NAMESERVER_COUNT
            invariant
                k <= NAMESERVER_COUNT,
                v4@.len() == k,
                v6@.len() == k,
                forall|i: int| 0 <= i < k ==> v4@[i] is None && v6@[i] is None,
            decreases NAMESERVER_COUNT - k,
        {
            v4.push(None);
            v6.push(None);
            k = k + 1;
        }
        NameserverCache { v4, v6 }
    }

    /// The cached address of candidate `i` under `version`.
    pub fn lookup(&self, version: IpVersion, i: usize) -> (r: Option<IpAddress>)
        requires
            self.wf(),
            i < NAMESERVER_COUNT,
        ensures
            r == self.entry(version, i as int),
    {
        match version {
            IpVersion::Ipv4 => self.v4[i],
            IpVersion::Ipv6 => self.v6[i],
        }
    }

    /// Record the address candidate `i` resolved to, unless an address
    /// is already recorded: entries are written once and never
    /// replaced. No other entry changes.
    pub fn insert_if_absent(&mut self, version: IpVersion, i: usize, addr: IpAddress)
        requires
            old(self).wf(),
            i < NAMESERVER_COUNT,
        ensures
            final(self).wf(),
            final(self).entry(version, i as int) == match old(self).entry(version, i as int) {
                Option::Some(a) => Some(a),
                Option::None => Some(addr),
            },
            forall|v: IpVersion, j: int|
                0 <= j < NAMESERVER_COUNT && !(v == version && j == i as int)
                    ==> #[trigger] final(self).entry(v, j) == old(self).entry(v, j),
    {
        match version {
            IpVersion::Ipv4 => {
                if self.v4[i].is_none() {
                    self.v4[i] = Some(addr);
                }
            },
            IpVersion::Ipv6 => {
                if self.v6[i].is_none() {
                    self.v6[i] = Some(addr);
                }
            },
        }
    }
}

} // verus!
