//! The address data model and its textual form.
//!
//! An address is held as plain integers: four octets for IPv4, eight
//! 16-bit groups for IPv6. The textual rendering (dotted decimal for
//! IPv4; lower-case hex groups for IPv6 with the leftmost longest run
//! of two or more zero groups elided as `::`) is defined by spec
//! functions, and the executable formatters are proved to produce
//! exactly that text.

use vstd::prelude::*;
use crate::IpVersion;
use crate::text::{dec_digits, hex_digits, join_with, lemma_join_push, push_decimal, push_hex};

verus! {

/// The dotted-decimal text of an IPv4 address.
pub open spec fn ipv4_text(a: u8, b: u8, c: u8, d: u8) -> Seq<char> {
    dec_digits(a as int) + seq!['.'] + dec_digits(b as int) + seq!['.']
        + dec_digits(c as int) + seq!['.'] + dec_digits(d as int)
}

/// The hexadecimal text of each group, in order.
pub open spec fn hex_texts(groups: Seq<u16>) -> Seq<Seq<char>> {
    groups.map_values(|g: u16| hex_digits(g as int))
}

/// How many consecutive zero groups start at position `i`.
pub open spec fn zero_run_len(groups: Seq<u16>, i: int) -> int
    decreases groups.len() - i,
{
    if i < 0 || i >= groups.len() || groups[i] != 0 {
        0
    } else {
        1 + zero_run_len(groups, i + 1)
    }
}

/// The start of the leftmost longest run of at least two zero groups at
/// or after position `i`, if any.
pub open spec fn best_zero_run_from(groups: Seq<u16>, i: int) -> Option<int>
    decreases groups.len() - i,
{
    if i < 0 || i >= groups.len() {
        None
    } else {
        let rest = best_zero_run_from(groups, i + 1);
        if zero_run_len(groups, i) >= 2 && (rest is None || zero_run_len(groups, i)
            >= zero_run_len(groups, rest->0)) {
            Some(i)
        } else {
            rest
        }
    }
}

/// The text of an IPv6 address: colon-separated lower-case hex groups,
/// with the leftmost longest run of at least two zero groups written
/// `::`.
pub open spec fn ipv6_text(groups: Seq<u16>) -> Seq<char> {
    match best_zero_run_from(groups, 0) {
        Option::None => join_with(hex_texts(groups), ':'),
        Option::Some(s) => {
            let l = zero_run_len(groups, s);
            join_with(hex_texts(groups.subrange(0, s)), ':') + seq![':', ':'] + join_with(
                hex_texts(groups.subrange(s + l, groups.len() as int)),
                ':',
            )
        },
    }
}

/// An IP address held as plain integer components.
///
/// IPv4 is four octets; IPv6 is eight 16-bit groups, most significant
/// first.
#[derive(Clone, Copy, Debug, PartialEq, Eq)]
pub enum IpAddress {
    /// An IPv4 address as its four octets, in textual order.
    V4 { octets: [u8; 4] },
    /// An IPv6 address as its eight groups, in textual order.
    V6 { groups: [u16; 8] },
}

impl IpAddress {
    /// Build an IPv4 address from its four octets.
    pub fn v4(a: u8, b: u8, c: u8, d: u8) -> (r: IpAddress)
        ensures
            r == (IpAddress::V4 { octets: [a, b, c, d] }),
    {
        IpAddress::V4 { octets: [a, b, c, d] }
    }

    /// Build an IPv6 address from its eight groups.
    pub fn v6(groups: [u16; 8]) -> (r: IpAddress)
        ensures
            r == (IpAddress::V6 { groups }),
    {
        IpAddress::V6 { groups }
    }

    /// Which address family this address belongs to.
    pub open spec fn spec_version(self) -> IpVersion {
        match self {
            IpAddress::V4 { .. } => IpVersion::Ipv4,
            IpAddress::V6 { .. } => IpVersion::Ipv6,
        }
    }

    /// Which address family this address belongs to.
    pub fn version(&self) -> (v: IpVersion)
        ensures
            v == self.spec_version(),
    {
        match self {
            IpAddress::V4 { .. } => IpVersion::Ipv4,
            IpAddress::V6 { .. } => IpVersion::Ipv6,
        }
    }

    /// The textual form of this address.
    pub open spec fn text(self) -> Seq<char> {
        match self {
            IpAddress::V4 { octets } => ipv4_text(octets[0], octets[1], octets[2], octets[3]),
            IpAddress::V6 { groups } => ipv6_text(groups@),
        }
    }

    /// Render this address as text.
    pub fn to_text(&self) -> (r: String)
        ensures
            r@ == self.text(),
    {
        match self {
            IpAddress::V4 { octets } => ipv4_to_text(octets[0], octets[1], octets[2], octets[3]),
            IpAddress::V6 { groups } => ipv6_to_text(groups),
        }
    }
}

/// Render an IPv4 address as dotted decimal.
pub fn ipv4_to_text(a: u8, b: u8, c: u8, d: u8) -> (r: String)
    ensures
        r@ == ipv4_text(a, b, c, d),
{
    proof {
        reveal_strlit(".");
    }
    let mut s = String::new();
    push_decimal(&mut s, a);
    s.append(".");
    push_decimal(&mut s, b);
    s.append(".");
    push_decimal(&mut s, c);
    s.append(".");
    push_decimal(&mut s, d);
    proof {
        assert(s@ =~= ipv4_text(a, b, c, d));
    }
    s
}

/// The length of the zero run starting at `i`.
fn zero_run_at(groups: &[u16; 8], i: usize) -> (l: usize)
    requires
        i <= 8,
    ensures
        l as int == zero_run_len(groups@, i as int),
        l <= 8 - i,
    decreases 8 - i,
{
    if i >= 8 || groups[i] != 0 {
        0
    } else {
        1 + zero_run_at(groups, i + 1)
    }
}

/// The leftmost longest run of at least two zero groups at or after `i`.
fn best_zero_run(groups: &[u16; 8], i: usize) -> (r: Option<usize>)
    requires
        i <= 8,
    ensures
        match r {
            Option::Some(s) => best_zero_run_from(groups@, i as int) == Some(s as int) && i <= s
                < 8,
            Option::None => best_zero_run_from(groups@, i as int) is None,
        },
    decreases 8 - i,
{
    if i >= 8 {
        None
    } else {
        let rest = best_zero_run(groups, i + 1);
        let here = zero_run_at(groups, i);
        match rest {
            Option::None => if here >= 2 { Some(i) } else { None },
            Option::Some(b) => {
                let best_len = zero_run_at(groups, b);
                if here >= 2 && here >= best_len {
                    Some(i)
                } else {
                    Some(b)
                }
            },
        }
    }
}

/// Append the hex texts of the groups in `from..to`, colon-separated.
fn append_groups(s: &mut String, groups: &[u16; 8], from: usize, to: usize)
    requires
        from <= to <= 8,
    ensures
        final(s)@ == old(s)@ + join_with(hex_texts(groups@.subrange(from as int, to as int)), ':'),
{
    proof {
        reveal_strlit(":");
    }
    let mut i = from;
    while i < to
        invariant
            from <= i <= to <= 8,
            s@ == old(s)@ + join_with(hex_texts(groups@.subrange(from as int, i as int)), ':'),
        decreases to - i,
    {
        proof {
            reveal_strlit(":");
        }
        if i > from {
            s.append(":");
        }
        push_hex(s, groups[i]);
        proof {
            let pre = groups@.subrange(from as int, i as int);
            let post = groups@.subrange(from as int, i + 1 as int);
            assert(post =~= pre.push(groups@[i as int]));
            assert(hex_texts(post) =~= hex_texts(pre).push(hex_digits(groups@[i as int] as int)));
            if i > from {
                lemma_join_push(hex_texts(pre), hex_digits(groups@[i as int] as int), ':');
            } else {
                assert(hex_texts(post).len() == 1);
                assert(join_with(hex_texts(post), ':') == hex_texts(post)[0]);
            }
            assert(s@ =~= old(s)@ + join_with(hex_texts(post), ':'));
        }
        i = i + 1;
    }
    proof {
        assert(s@ =~= old(s)@ + join_with(
            hex_texts(groups@.subrange(from as int, to as int)),
            ':',
        ));
    }
}

/// Render an IPv6 address: colon-separated lower-case hex groups, the
/// leftmost longest run of at least two zero groups elided as `::`.
pub fn ipv6_to_text(groups: &[u16; 8]) -> (r: String)
    ensures
        r@ == ipv6_text(groups@),
{
    let mut s = String::new();
    match best_zero_run(groups, 0) {
        Option::None => {
            append_groups(&mut s, groups, 0, 8);
            proof {
                assert(groups@.subrange(0, 8) =~= groups@);
            }
        },
        Option::Some(start) => {
            proof {
                reveal_strlit("::");
            }
            assert(start < 8);
            let len = zero_run_at(groups, start);
            append_groups(&mut s, groups, 0, start);
            s.append("::");
            append_groups(&mut s, groups, start + len, 8);
            proof {
                assert("::"@ =~= seq![':', ':']);
                assert(s@ =~= ipv6_text(groups@));
            }
        },
    }
    s
}

} // verus!
