//! Reading the WAN self-address answer.
//!
//! The TXT lookup itself is network work done by the caller; it hands
//! over the text values of the answer. Each value that parses as an
//! address is kept, in answer order, as a plain value; malformed or
//! non-address values are dropped silently, never treated as errors.
//! An answer with no parsable value yields an empty collection — that
//! is an answer, not a lookup failure.

use vstd::prelude::*;
use crate::MyIps;
use crate::aggregate::views_of;
use crate::myip::MyIp;
use crate::parse::{parse_ip, parse_ip_spec};

verus! {

/// The addresses among the answer's texts, in order, each plain.
pub open spec fn wan_addresses(ts: Seq<Seq<char>>) -> Seq<MyIp>
    decreases ts.len(),
{
    if ts.len() == 0 {
        Seq::empty()
    } else {
        wan_addresses(ts.drop_last()) + (match parse_ip_spec(ts.last()) {
            Option::Some(ip) => seq![MyIp::Plain { ip }],
            Option::None => Seq::empty(),
        })
    }
}

/// Keep every answer text that parses as an address, in order, as a
/// plain value; drop the rest silently.
pub fn parse_wan_response(texts: &Vec<String>) -> (r: MyIps)
    ensures
        r@ == wan_addresses(views_of(texts@)),
{
    let mut r: MyIps = Vec::new();
    let mut i: usize = 0;
    proof {
        assert(views_of(texts@.take(0)) =~= Seq::empty());
        assert(r@ =~= wan_addresses(views_of(texts@.take(0))));
    }
    while i < texts.len()
        invariant
            i <= texts@.len(),
            r@ == wan_addresses(views_of(texts@.take(i as int))),
        decreases texts@.len() - i,
    {
        match parse_ip(texts[i].as_str()) {
            Option::Some(ip) => r.push(MyIp::Plain { ip }),
            Option::None => {},
        }
        proof {
            let pre = views_of(texts@.take(i as int));
            let post = views_of(texts@.take(i + 1));
            assert(post.drop_last() =~= pre);
            assert(post.last() == texts@[i as int]@);
            assert(r@ =~= wan_addresses(post));
        }
        i = i + 1;
    }
    proof {
        assert(texts@.take(texts@.len() as int) =~= texts@);
        assert(views_of(texts@.take(texts@.len() as int)) == views_of(texts@));
    }
    r
}

} // verus!
