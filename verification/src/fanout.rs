//! Bounded fan-out of reverse-DNS lookups.
//!
//! The caller performs the lookups; this state machine decides which
//! lookup may start, enforces the hard ceiling of [`FANOUT_LIMIT`]
//! lookups in flight at once, and assembles the outputs. A lookup that
//! returns a hostname annotates its address; one that fails leaves the
//! address plain — a per-address failure never fails the batch. When a
//! lookup returns several hostnames only the first, in response order,
//! is kept; that choice is arbitrary, not meaningful.

use vstd::prelude::*;
use crate::myip::{MyIp, ReversedIp};

verus! {

/// The most reverse lookups allowed in flight at once.
pub const FANOUT_LIMIT: usize = 16;

/// How many slots hold a finished output.
pub open spec fn count_some(s: Seq<Option<MyIp>>) -> int
    decreases s.len(),
{
    if s.len() == 0 {
        0
    } else {
        count_some(s.drop_last()) + if s.last() is Some {
            1int
        } else {
            0int
        }
    }
}

/// No more slots are filled than exist.
proof fn lemma_count_some_bound(s: Seq<Option<MyIp>>)
    ensures
        0 <= count_some(s) <= s.len(),
        count_some(s) == s.len() ==> forall|i: int| 0 <= i < s.len() ==> s[i] is Some,
    decreases s.len(),
{
    if s.len() > 0 {
        lemma_count_some_bound(s.drop_last());
        if count_some(s) == s.len() {
            assert forall|i: int| 0 <= i < s.len() implies s[i] is Some by {
                if i < s.len() - 1 {
                    assert(s.drop_last()[i] == s[i]);
                }
            }
        }
    }
}

/// Filling one empty slot raises the count by one.
proof fn lemma_count_some_fill(s: Seq<Option<MyIp>>, i: int, x: MyIp)
    requires
        0 <= i < s.len(),
        s[i] is None,
    ensures
        count_some(s.update(i, Some(x))) == count_some(s) + 1,
    decreases s.len(),
{
    let t = s.update(i, Some(x));
    if i == s.len() - 1 {
        assert(t.drop_last() =~= s.drop_last());
    } else {
        lemma_count_some_fill(s.drop_last(), i, x);
        assert(t.drop_last() =~= s.drop_last().update(i, Some(x)));
        assert(t.last() == s.last());
    }
}

/// The output one lookup result produces for one address: annotated by
/// the hostname when there is one, plain otherwise; the address itself
/// never changes.
pub open spec fn annotated(ip: MyIp, hostname: Option<ReversedIp>) -> MyIp {
    match hostname {
        Option::Some(h) => MyIp::Reversed { ip: ip.spec_ip(), reversed: h },
        Option::None => MyIp::Plain { ip: ip.spec_ip() },
    }
}

/// The reverse-lookup fan-out over one batch of addresses.
///
/// Lookups start in address order; they may finish in any order. A
/// lookup is in flight from `start` until `complete`.
#[derive(Debug)]
pub struct ReverseFanout {
    /// The addresses of the batch, fixed at construction.
    pub addresses: Vec<MyIp>,
    /// How many lookups have been started; they are started in order,
    /// so exactly the first `started` addresses have been.
    pub started: usize,
    /// The output of each finished lookup, in address order.
    pub done: Vec<Option<MyIp>>,
    /// How many lookups have finished.
    pub completed: usize,
}

impl ReverseFanout {
    /// What every history of the fan-out maintains. In particular, at
    /// most [`FANOUT_LIMIT`] lookups are in flight at any point, and a
    /// finished output always carries the address it was made from.
    pub open spec fn wf(self) -> bool {
        &&& self.done@.len() == self.addresses@.len()
        &&& self.started <= self.addresses@.len()
        &&& self.completed <= self.started
        &&& self.started - self.completed <= FANOUT_LIMIT
        &&& self.completed == count_some(self.done@)
        &&& forall|i: int|
            0 <= i < self.done@.len() && #[trigger] self.done@[i] is Some ==> i < self.started
                && self.done@[i]->0.spec_ip() == self.addresses@[i].spec_ip()
    }

    /// How many lookups are in flight.
    pub open spec fn spec_in_flight(self) -> int {
        self.started - self.completed
    }

    /// Begin a batch: nothing started, nothing finished.
    pub fn new(addresses: Vec<MyIp>) -> (r: ReverseFanout)
        ensures
            r.wf(),
            r.addresses == addresses,
            r.started == 0,
            r.completed == 0,
            forall|i: int| 0 <= i < r.done@.len() ==> r.done@[i] is None,
    {
        let n = addresses.len();
        let mut done: Vec<Option<MyIp>> = Vec::new();
        let mut k: usize = 0;
        while k < n
            invariant
                k <= n,
                done@.len() == k,
                forall|i: int| 0 <= i < k ==> done@[i] is None,
            decreases n - k,
        {
            done.push(None);
            k = k + 1;
        }
        proof {
            lemma_count_all_none(done@);
        }
        ReverseFanout { addresses, started: 0, done, completed: 0 }
    }

    /// Whether another lookup may start: an address remains and the
    /// in-flight ceiling is not reached.
    pub fn can_start(&self) -> (r: bool)
        requires
            self.wf(),
        ensures
            r == (self.started < self.addresses@.len() && self.spec_in_flight() < FANOUT_LIMIT),
    {
        self.started < self.addresses.len() && self.started - self.completed < FANOUT_LIMIT
    }

    /// The address at one position, for the caller to look up.
    pub fn address(&self, i: usize) -> (r: &MyIp)
        requires
            i < self.addresses@.len(),
        ensures
            *r == self.addresses@[i as int],
    {
        &self.addresses[i]
    }

    /// Start the next lookup; returns its index. Refused when the
    /// ceiling is reached: callers beyond it must wait for a
    /// completion, never start more.
    pub fn start(&mut self) -> (idx: usize)
        requires
            old(self).wf(),
            old(self).started < old(self).addresses@.len(),
            old(self).spec_in_flight() < FANOUT_LIMIT,
        ensures
            final(self).wf(),
            idx == old(self).started,
            *final(self) == (ReverseFanout { started: (old(self).started + 1) as usize, ..*old(self) }),
    {
        let n = self.addresses.len();
        let idx = self.started;
        proof {
            assert(idx < n);
        }
        self.started = self.started + 1;
        idx
    }

    /// Record the outcome of lookup `idx`: the annotated address when a
    /// hostname came back, the plain address when the lookup failed.
    pub fn complete(&mut self, idx: usize, hostname: Option<ReversedIp>)
        requires
            old(self).wf(),
            idx < old(self).started,
            old(self).done@[idx as int] is None,
        ensures
            final(self).wf(),
            final(self).addresses == old(self).addresses,
            final(self).started == old(self).started,
            final(self).completed == old(self).completed + 1,
            final(self).done@ == old(self).done@.update(
                idx as int,
                Some(annotated(old(self).addresses@[idx as int], hostname)),
            ),
    {
        let ip = self.addresses[idx].ip();
        let out = match hostname {
            Option::Some(h) => MyIp::Reversed { ip, reversed: h },
            Option::None => MyIp::Plain { ip },
        };
        proof {
            lemma_count_some_lt(self.done@, self.started as int, idx as int);
            lemma_count_some_fill(
                self.done@,
                idx as int,
                annotated(self.addresses@[idx as int], hostname),
            );
        }
        self.done[idx] = Some(out);
        self.completed = self.completed + 1;
    }

    /// Whether every lookup of the batch has finished.
    pub fn is_done(&self) -> (r: bool)
        requires
            self.wf(),
        ensures
            r == (self.completed == self.addresses@.len()),
    {
        self.completed == self.addresses.len()
    }

    /// Hand out the batch's outputs, in address order. Each output is
    /// the annotated or plain form of its address: a failed lookup
    /// degrades that address, never the batch.
    pub fn finish(self) -> (out: Vec<MyIp>)
        requires
            self.wf(),
            self.completed == self.addresses@.len(),
        ensures
            out@.len() == self.addresses@.len(),
            forall|i: int|
                0 <= i < out@.len() ==> self.done@[i] == Some(#[trigger] out@[i]),
            forall|i: int|
                0 <= i < out@.len() ==> (#[trigger] out@[i]).spec_ip()
                    == self.addresses@[i].spec_ip(),
    {
        proof {
            lemma_count_some_bound(self.done@);
        }
        let mut done = self.done;
        let mut out: Vec<MyIp> = Vec::new();
        let n = done.len();
        let mut i: usize = 0;
        while i < n
            invariant
                i <= n,
                n == done@.len(),
                out@.len() == i,
                forall|j: int| i <= j < n ==> done@[j] == self.done@[j],
                forall|j: int| 0 <= j < i ==> self.done@[j] == Some(#[trigger] out@[j]),
                forall|j: int| 0 <= j < n ==> self.done@[j] is Some,
            decreases n - i,
        {
            let x = done[i].take();
            match x {
                Option::Some(m) => out.push(m),
                Option::None => {
                    proof {
                        assert(false);
                    }
                },
            }
            i = i + 1;
        }
        proof {
            assert forall|i_: int| 0 <= i_ < out@.len() implies (#[trigger] out@[i_]).spec_ip()
                == self.addresses@[i_].spec_ip() by {
                assert(self.done@[i_] is Some);
            }
        }
        out
    }
}

/// A lookup outcome never changes the address it was made for: the
/// output is annotated exactly when a hostname came back, and carries
/// the address of its input either way.
pub proof fn lemma_annotated_preserves_address(ip: MyIp, hostname: Option<ReversedIp>)
    ensures
        annotated(ip, hostname).spec_ip() == ip.spec_ip(),
        annotated(ip, hostname) is Reversed <==> hostname is Some,
{
}

/// The in-flight ceiling holds in every reachable state: a well-formed
/// fan-out never has more than [`FANOUT_LIMIT`] lookups pending.
pub proof fn lemma_fanout_bounded(f: ReverseFanout)
    requires
        f.wf(),
    ensures
        f.spec_in_flight() <= FANOUT_LIMIT,
{
}

/// A slot holding nothing keeps the count below the length.
proof fn lemma_count_some_none_slot(s: Seq<Option<MyIp>>, j: int)
    requires
        0 <= j < s.len(),
        s[j] is None,
    ensures
        count_some(s) <= s.len() - 1,
    decreases s.len(),
{
    lemma_count_some_bound(s.drop_last());
    if j < s.len() - 1 {
        lemma_count_some_none_slot(s.drop_last(), j);
    }
}

/// When every filled slot lies below `b` and some slot below `b` is
/// empty, fewer than `b` slots are filled.
proof fn lemma_count_some_lt(s: Seq<Option<MyIp>>, b: int, j: int)
    requires
        0 <= j < b <= s.len(),
        s[j] is None,
        forall|i: int| 0 <= i < s.len() && #[trigger] s[i] is Some ==> i < b,
    ensures
        count_some(s) < b,
    decreases s.len(),
{
    if s.len() == b {
        lemma_count_some_none_slot(s, j);
    } else {
        assert(s.last() is None);
        assert(forall|i: int|
            0 <= i < s.drop_last().len() && #[trigger] s.drop_last()[i] is Some ==> i < b);
        lemma_count_some_lt(s.drop_last(), b, j);
    }
}

/// A batch with no filled slot has count zero.
proof fn lemma_count_all_none(s: Seq<Option<MyIp>>)
    requires
        forall|i: int| 0 <= i < s.len() ==> s[i] is None,
    ensures
        count_some(s) == 0,
    decreases s.len(),
{
    if s.len() > 0 {
        lemma_count_all_none(s.drop_last());
    }
}

/// Keep the first hostname of a reverse answer, if any: selection among
/// several PTR records is by response order and means nothing.
pub fn first_hostname(hostnames: Vec<String>) -> (r: Option<ReversedIp>)
    ensures
        match r {
            Option::Some(h) => hostnames@.len() > 0 && h.0@ == hostnames@[0]@,
            Option::None => hostnames@.len() == 0,
        },
{
    let mut hostnames = hostnames;
    if hostnames.len() == 0 {
        None
    } else {
        let first = hostnames.remove(0);
        Some(ReversedIp(first))
    }
}

} // verus!
