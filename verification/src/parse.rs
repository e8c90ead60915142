//! Parsing address text.
//!
//! The grammar is given by spec functions; the executable parsers are
//! proved to return exactly what the grammar gives, for every input.
//! Dotted decimal (four octets, no leading zeros) is accepted for IPv4;
//! colon-separated hex groups with at most one `::` elision, either
//! case, are accepted for IPv6. Dotted-quad tails inside IPv6 text are
//! not part of the grammar.

use vstd::prelude::*;
use crate::text::join_with;

verus! {

/// Whether `c` is a decimal digit.
pub open spec fn is_digit(c: char) -> bool {
    '0' <= c && c <= '9'
}

/// The value of a decimal digit character.
pub open spec fn digit_val(c: char) -> int {
    c as int - '0' as int
}

/// Digit characters and digit values correspond one to one.
pub proof fn lemma_digit_char_val()
    ensures
        forall|c: char| #[trigger] is_digit(c) ==> 0 <= digit_val(c) <= 9,
        forall|d: int|
            0 <= d <= 9 ==> is_digit(#[trigger] crate::text::digit_char(d)) && digit_val(
                crate::text::digit_char(d),
            ) == d,
        forall|c: char| #[trigger] is_digit(c) ==> crate::text::digit_char(digit_val(c)) == c,
{
    assert forall|d: int| 0 <= d <= 9 implies is_digit(#[trigger] crate::text::digit_char(d))
        && digit_val(crate::text::digit_char(d)) == d by {
        assert('0' as int == 48 && '1' as int == 49 && '2' as int == 50 && '3' as int == 51
            && '4' as int == 52 && '5' as int == 53 && '6' as int == 54 && '7' as int == 55
            && '8' as int == 56 && '9' as int == 57);
    }
    assert forall|c: char| #[trigger] is_digit(c) implies crate::text::digit_char(digit_val(c))
        == c by {
        let v = digit_val(c);
        assert(0 <= v <= 9);
        assert(c as int == 48 + v);
        assert(crate::text::digit_char(v) as int == 48 + v);
    }
}

/// The number a digit text denotes, most significant digit first.
pub open spec fn digits_val(t: Seq<char>) -> int
    decreases t.len(),
{
    if t.len() == 0 {
        0
    } else {
        digits_val(t.drop_last()) * 10 + digit_val(t.last())
    }
}

/// A decimal octet token: one to three digits, no leading zero, value
/// below 256.
pub open spec fn valid_octet(t: Seq<char>) -> bool {
    &&& 1 <= t.len() <= 3
    &&& (forall|i: int| 0 <= i < t.len() ==> is_digit(#[trigger] t[i]))
    &&& (t.len() > 1 ==> t[0] != '0')
    &&& digits_val(t) < 256
}

/// The canonical digits of an octet value are a valid octet token and
/// denote that value.
pub proof fn lemma_dec_digits_octet(n: int)
    requires
        0 <= n <= 255,
    ensures
        valid_octet(crate::text::dec_digits(n)),
        digits_val(crate::text::dec_digits(n)) == n,
    decreases n,
{
    lemma_digit_char_val();
    let t = crate::text::dec_digits(n);
    assert(digits_val(Seq::<char>::empty()) == 0);
    if n <= 9 {
        assert(t =~= seq![crate::text::digit_char(n)]);
        assert(t.drop_last() =~= Seq::<char>::empty());
        assert(digits_val(t) == digits_val(t.drop_last()) * 10 + digit_val(t.last()));
        assert(digits_val(t) == digit_val(crate::text::digit_char(n)));
    } else {
        lemma_dec_digits_octet(n / 10);
        let h = crate::text::dec_digits(n / 10);
        assert(t == h.push(crate::text::digit_char(n % 10)));
        assert(t.drop_last() =~= h);
        assert(t.last() == crate::text::digit_char(n % 10));
        assert(digit_val(crate::text::digit_char(n % 10)) == n % 10);
        assert(digits_val(t) == digits_val(t.drop_last()) * 10 + digit_val(t.last()));
        assert(digits_val(t) == (n / 10) * 10 + n % 10);
        assert((n / 10) * 10 + n % 10 == n);
        assert(t[0] == h[0]);
        assert(is_digit(h[0]) && digit_val('0') == 0);
        if n <= 99 {
            assert(1 <= n / 10 <= 9);
            assert(h =~= seq![crate::text::digit_char(n / 10)]);
            assert(digit_val(h[0]) == n / 10);
            assert(h[0] != '0');
            assert(t.len() == 2);
        } else {
            assert(10 <= n / 10 <= 25);
            assert(h == crate::text::dec_digits(n / 10 / 10).push(
                crate::text::digit_char((n / 10) % 10),
            )) by {
                assert(n / 10 > 9);
            }
            assert(n / 10 / 10 <= 9) by (nonlinear_arith)
                requires
                    10 <= n / 10 <= 25,
            ;
            assert(crate::text::dec_digits(n / 10 / 10) =~= seq![
                crate::text::digit_char(n / 10 / 10),
            ]);
            assert(h.len() == 2);
            assert(h[0] != '0');
            assert(t.len() == 3);
        }
        assert(forall|i: int| 0 <= i < t.len() ==> is_digit(#[trigger] t[i]));
    }
}

/// A valid octet token is the canonical digits of its value: octet
/// text has exactly one spelling.
pub proof fn lemma_octet_canonical(t: Seq<char>)
    requires
        valid_octet(t),
    ensures
        t == crate::text::dec_digits(digits_val(t)),
        0 <= digits_val(t) <= 255,
{
    lemma_digit_char_val();
    let v = digits_val(t);
    assert(digits_val(Seq::<char>::empty()) == 0);
    if t.len() == 1 {
        let d0 = digit_val(t[0]);
        assert(t.drop_last() =~= Seq::<char>::empty());
        assert(v == digits_val(t.drop_last()) * 10 + digit_val(t.last()));
        assert(v == d0);
        assert(crate::text::dec_digits(v) =~= seq![crate::text::digit_char(v)]);
        assert(crate::text::digit_char(d0) == t[0]);
        assert(t =~= crate::text::dec_digits(v));
    } else if t.len() == 2 {
        let d0 = digit_val(t[0]);
        let d1 = digit_val(t[1]);
        assert(t.drop_last() =~= seq![t[0]]);
        assert(seq![t[0]].drop_last() =~= Seq::<char>::empty());
        assert(digits_val(seq![t[0]]) == digits_val(seq![t[0]].drop_last()) * 10 + digit_val(
            seq![t[0]].last(),
        ));
        assert(digits_val(seq![t[0]]) == d0);
        assert(v == digits_val(t.drop_last()) * 10 + digit_val(t.last()));
        assert(v == d0 * 10 + d1);
        assert(1 <= d0 <= 9) by {
            assert(digit_val('0') == 0);
            assert(t[0] != '0');
            assert(0 <= d0 <= 9);
            assert(crate::text::digit_char(d0) == t[0]);
            assert(crate::text::digit_char(0) == '0');
        }
        assert(10 <= v <= 99);
        assert(v / 10 == d0 && v % 10 == d1) by (nonlinear_arith)
            requires
                v == d0 * 10 + d1,
                1 <= d0 <= 9,
                0 <= d1 <= 9,
        ;
        assert(crate::text::dec_digits(v) == crate::text::dec_digits(v / 10).push(
            crate::text::digit_char(v % 10),
        ));
        assert(crate::text::dec_digits(d0) =~= seq![crate::text::digit_char(d0)]);
        assert(t =~= crate::text::dec_digits(v));
    } else {
        let d0 = digit_val(t[0]);
        let d1 = digit_val(t[1]);
        let d2 = digit_val(t[2]);
        assert(t.drop_last() =~= seq![t[0], t[1]]);
        assert(seq![t[0], t[1]].drop_last() =~= seq![t[0]]);
        assert(seq![t[0]].drop_last() =~= Seq::<char>::empty());
        assert(digits_val(seq![t[0]]) == digits_val(seq![t[0]].drop_last()) * 10 + digit_val(
            seq![t[0]].last(),
        ));
        assert(digits_val(seq![t[0]]) == d0);
        assert(digits_val(seq![t[0], t[1]]) == digits_val(seq![t[0], t[1]].drop_last()) * 10
            + digit_val(seq![t[0], t[1]].last()));
        assert(digits_val(seq![t[0], t[1]]) == d0 * 10 + d1);
        assert(v == digits_val(t.drop_last()) * 10 + digit_val(t.last()));
        assert(v == (d0 * 10 + d1) * 10 + d2);
        assert(1 <= d0 <= 9) by {
            assert(digit_val('0') == 0);
            assert(t[0] != '0');
            assert(0 <= d0 <= 9);
            assert(crate::text::digit_char(d0) == t[0]);
            assert(crate::text::digit_char(0) == '0');
        }
        assert(100 <= v) by (nonlinear_arith)
            requires
                v == (d0 * 10 + d1) * 10 + d2,
                1 <= d0,
                0 <= d1,
                0 <= d2,
        ;
        assert(v / 10 == d0 * 10 + d1 && v % 10 == d2) by (nonlinear_arith)
            requires
                v == (d0 * 10 + d1) * 10 + d2,
                1 <= d0 <= 9,
                0 <= d1 <= 9,
                0 <= d2 <= 9,
        ;
        assert((d0 * 10 + d1) / 10 == d0 && (d0 * 10 + d1) % 10 == d1) by (nonlinear_arith)
            requires
                1 <= d0 <= 9,
                0 <= d1 <= 9,
        ;
        assert(crate::text::dec_digits(v) == crate::text::dec_digits(v / 10).push(
            crate::text::digit_char(d2),
        ));
        assert(crate::text::dec_digits(d0 * 10 + d1) == crate::text::dec_digits(d0).push(
            crate::text::digit_char(d1),
        ));
        assert(crate::text::dec_digits(d0) =~= seq![crate::text::digit_char(d0)]);
        assert(t =~= crate::text::dec_digits(v));
    }
}

/// The position of the first occurrence of `c` at or after `i`.
pub open spec fn first_occurrence(s: Seq<char>, c: char, i: int) -> Option<int>
    decreases s.len() - i,
{
    if i < 0 || i >= s.len() {
        None
    } else if s[i] == c {
        Some(i)
    } else {
        first_occurrence(s, c, i + 1)
    }
}

/// What the first occurrence means: the found position holds `c` and
/// nothing before it does; not finding one means `c` is absent.
pub proof fn lemma_first_occurrence_props(s: Seq<char>, c: char, i: int)
    requires
        0 <= i,
    ensures
        match first_occurrence(s, c, i) {
            Option::Some(k) => i <= k < s.len() && s[k] == c && (forall|j: int|
                i <= j < k ==> s[j] != c),
            Option::None => forall|j: int| i <= j < s.len() ==> s[j] != c,
        },
    decreases s.len() - i,
{
    if i < s.len() && s[i] != c {
        lemma_first_occurrence_props(s, c, i + 1);
    }
}

/// The parsed IPv4 address of a text: four dot-separated valid octet
/// tokens and nothing else, or no address at all.
pub open spec fn parse_ipv4_spec(s: Seq<char>) -> Option<crate::addr::IpAddress> {
    match first_occurrence(s, '.', 0) {
        Option::None => None,
        Option::Some(d1) => match first_occurrence(s, '.', d1 + 1) {
            Option::None => None,
            Option::Some(d2) => match first_occurrence(s, '.', d2 + 1) {
                Option::None => None,
                Option::Some(d3) => {
                    let t1 = s.subrange(0, d1);
                    let t2 = s.subrange(d1 + 1, d2);
                    let t3 = s.subrange(d2 + 1, d3);
                    let t4 = s.subrange(d3 + 1, s.len() as int);
                    if valid_octet(t1) && valid_octet(t2) && valid_octet(t3) && valid_octet(t4) {
                        Some(
                            crate::addr::IpAddress::V4 {
                                octets: [
                                    digits_val(t1) as u8,
                                    digits_val(t2) as u8,
                                    digits_val(t3) as u8,
                                    digits_val(t4) as u8,
                                ],
                            },
                        )
                    } else {
                        None
                    }
                },
            },
        },
    }
}

/// A digit text of at most three digits denotes at most 999.
proof fn lemma_digits_val_small(t: Seq<char>)
    requires
        forall|i: int| 0 <= i < t.len() ==> is_digit(#[trigger] t[i]),
        t.len() <= 3,
    ensures
        0 <= digits_val(t),
        t.len() == 0 ==> digits_val(t) == 0,
        t.len() <= 1 ==> digits_val(t) <= 9,
        t.len() <= 2 ==> digits_val(t) <= 99,
        digits_val(t) <= 999,
    decreases t.len(),
{
    lemma_digit_char_val();
    if t.len() > 0 {
        assert(forall|i: int|
            0 <= i < t.drop_last().len() ==> is_digit(#[trigger] t.drop_last()[i]));
        lemma_digits_val_small(t.drop_last());
        assert(is_digit(t.last()));
        assert(0 <= digit_val(t.last()) <= 9);
    }
}

/// Parsing the text of an IPv4 address gives back exactly that
/// address: formatting and parsing round-trip.
pub proof fn lemma_parse_ipv4_round_trip(a: u8, b: u8, c: u8, d: u8)
    ensures
        parse_ipv4_spec(crate::addr::ipv4_text(a, b, c, d)) == Some(
            crate::addr::IpAddress::V4 { octets: [a, b, c, d] },
        ),
{
    lemma_digit_char_val();
    lemma_dec_digits_octet(a as int);
    lemma_dec_digits_octet(b as int);
    lemma_dec_digits_octet(c as int);
    lemma_dec_digits_octet(d as int);
    let ta = crate::text::dec_digits(a as int);
    let tb = crate::text::dec_digits(b as int);
    let tc = crate::text::dec_digits(c as int);
    let td = crate::text::dec_digits(d as int);
    let s = crate::addr::ipv4_text(a, b, c, d);
    let la = ta.len() as int;
    let d1 = la;
    let d2 = la + 1 + tb.len();
    let d3 = d2 + 1 + tc.len();
    assert(s.len() == d3 + 1 + td.len());
    assert(s[d1] == '.' && s[d2] == '.' && s[d3] == '.');
    assert(forall|j: int| 0 <= j < d1 ==> s[j] == ta[j] && is_digit(#[trigger] s[j]));
    assert(forall|j: int|
        d1 < j < d2 ==> s[j] == tb[j - d1 - 1] && is_digit(#[trigger] s[j]));
    assert(forall|j: int|
        d2 < j < d3 ==> s[j] == tc[j - d2 - 1] && is_digit(#[trigger] s[j]));
    assert(forall|j: int|
        d3 < j < s.len() ==> s[j] == td[j - d3 - 1] && is_digit(#[trigger] s[j]));
    assert(!is_digit('.')) by {
        assert('.' as int == 46);
    }
    lemma_first_occurrence_props(s, '.', 0);
    assert(first_occurrence(s, '.', 0) == Some(d1)) by {
        match first_occurrence(s, '.', 0) {
            Option::Some(k) => {
                if k < d1 {
                    assert(is_digit(s[k]));
                } else if k > d1 {
                    assert(s[d1] != '.');
                }
            },
            Option::None => {
                assert(s[d1] != '.');
            },
        }
    }
    lemma_first_occurrence_props(s, '.', d1 + 1);
    assert(first_occurrence(s, '.', d1 + 1) == Some(d2)) by {
        match first_occurrence(s, '.', d1 + 1) {
            Option::Some(k) => {
                if k < d2 {
                    assert(is_digit(s[k]));
                } else if k > d2 {
                    assert(s[d2] != '.');
                }
            },
            Option::None => {
                assert(s[d2] != '.');
            },
        }
    }
    lemma_first_occurrence_props(s, '.', d2 + 1);
    assert(first_occurrence(s, '.', d2 + 1) == Some(d3)) by {
        match first_occurrence(s, '.', d2 + 1) {
            Option::Some(k) => {
                if k < d3 {
                    assert(is_digit(s[k]));
                } else if k > d3 {
                    assert(s[d3] != '.');
                }
            },
            Option::None => {
                assert(s[d3] != '.');
            },
        }
    }
    assert(s.subrange(0, d1) =~= ta);
    assert(s.subrange(d1 + 1, d2) =~= tb);
    assert(s.subrange(d2 + 1, d3) =~= tc);
    assert(s.subrange(d3 + 1, s.len() as int) =~= td);
    assert(digits_val(ta) as u8 == a);
    assert(digits_val(tb) as u8 == b);
    assert(digits_val(tc) as u8 == c);
    assert(digits_val(td) as u8 == d);
}

/// A text that parses as an IPv4 address is that address's text: the
/// grammar accepts nothing but canonical renderings.
pub proof fn lemma_parse_ipv4_sound(s: Seq<char>)
    ensures
        match parse_ipv4_spec(s) {
            Option::Some(ip) => match ip {
                crate::addr::IpAddress::V4 { octets } => s == crate::addr::ipv4_text(
                    octets[0],
                    octets[1],
                    octets[2],
                    octets[3],
                ),
                crate::addr::IpAddress::V6 { .. } => false,
            },
            Option::None => true,
        },
{
    if parse_ipv4_spec(s) is Some {
        let d1 = first_occurrence(s, '.', 0)->0;
        let d2 = first_occurrence(s, '.', d1 + 1)->0;
        let d3 = first_occurrence(s, '.', d2 + 1)->0;
        lemma_first_occurrence_props(s, '.', 0);
        lemma_first_occurrence_props(s, '.', d1 + 1);
        lemma_first_occurrence_props(s, '.', d2 + 1);
        let t1 = s.subrange(0, d1);
        let t2 = s.subrange(d1 + 1, d2);
        let t3 = s.subrange(d2 + 1, d3);
        let t4 = s.subrange(d3 + 1, s.len() as int);
        lemma_octet_canonical(t1);
        lemma_octet_canonical(t2);
        lemma_octet_canonical(t3);
        lemma_octet_canonical(t4);
        let o0 = digits_val(t1) as u8;
        let o1 = digits_val(t2) as u8;
        let o2 = digits_val(t3) as u8;
        let o3 = digits_val(t4) as u8;
        assert(t1 == crate::text::dec_digits(o0 as int));
        assert(t2 == crate::text::dec_digits(o1 as int));
        assert(t3 == crate::text::dec_digits(o2 as int));
        assert(t4 == crate::text::dec_digits(o3 as int));
        assert(s =~= t1 + seq!['.'] + t2 + seq!['.'] + t3 + seq!['.'] + t4);
    }
}

/// The position of the first occurrence of `c` at or after `from`.
fn find_char(s: &str, c: char, from: usize) -> (r: Option<usize>)
    requires
        from <= s@.len(),
    ensures
        match r {
            Option::Some(k) => from <= k < s@.len() && first_occurrence(s@, c, from as int)
                == Some(k as int),
            Option::None => first_occurrence(s@, c, from as int) is None,
        },
{
    let n = s.unicode_len();
    let mut i = from;
    while i < n
        invariant
            from <= i <= n,
            n == s@.len(),
            forall|j: int| from <= j < i ==> s@[j] != c,
        decreases n - i,
    {
        if s.get_char(i) == c {
            proof {
                lemma_first_occurrence_props(s@, c, from as int);
                match first_occurrence(s@, c, from as int) {
                    Option::Some(k) => {
                        if k < i as int {
                            assert(s@[k] != c);
                        } else if k > i as int {
                            assert(s@[i as int] != c);
                        }
                    },
                    Option::None => {
                        assert(s@[i as int] != c);
                    },
                }
            }
            return Some(i);
        }
        i = i + 1;
    }
    proof {
        lemma_first_occurrence_props(s@, c, from as int);
        if first_occurrence(s@, c, from as int) is Some {
            let k = first_occurrence(s@, c, from as int)->0;
            assert(s@[k] != c);
        }
    }
    None
}

/// Read the octet token in `from..to`, if that range holds one.
fn octet_value(s: &str, from: usize, to: usize) -> (r: Option<u8>)
    requires
        from <= to <= s@.len(),
    ensures
        match r {
            Option::Some(v) => valid_octet(s@.subrange(from as int, to as int)) && digits_val(
                s@.subrange(from as int, to as int),
            ) == v as int,
            Option::None => !valid_octet(s@.subrange(from as int, to as int)),
        },
{
    let ghost t = s@.subrange(from as int, to as int);
    let len = to - from;
    if len < 1 || len > 3 {
        return None;
    }
    if len > 1 && s.get_char(from) == '0' {
        proof {
            assert(t[0] == '0');
        }
        return None;
    }
    let mut i = from;
    let mut val: u32 = 0;
    proof {
        assert(t.subrange(0, 0) =~= Seq::<char>::empty());
        assert(digits_val(Seq::<char>::empty()) == 0);
    }
    while i < to
        invariant
            from <= i <= to <= s@.len(),
            to - from <= 3,
            t == s@.subrange(from as int, to as int),
            forall|j: int| 0 <= j < i - from ==> is_digit(#[trigger] t[j]),
            val == digits_val(t.subrange(0, i - from)),
            val <= 999,
        decreases to - i,
    {
        let ch = s.get_char(i);
        let u = ch as u32;
        if u < 48 || u > 57 {
            proof {
                assert(t[i - from] == ch);
                assert(!is_digit(ch)) by {
                    assert('0' as int == 48 && '9' as int == 57);
                }
            }
            return None;
        }
        proof {
            let pre = t.subrange(0, i - from);
            let post = t.subrange(0, i + 1 - from);
            assert(post.drop_last() =~= pre);
            assert(post.last() == t[i - from]);
            assert(t[i - from] == ch);
            assert(is_digit(ch)) by {
                assert('0' as int == 48 && '9' as int == 57);
            }
            assert(digit_val(ch) == u - 48);
            assert(digits_val(post) == digits_val(pre) * 10 + digit_val(ch));
            assert(forall|j: int| 0 <= j < post.len() ==> is_digit(#[trigger] post[j]));
            lemma_digits_val_small(pre);
        }
        val = val * 10 + (u - 48);
        i = i + 1;
    }
    proof {
        assert(t.subrange(0, to - from) =~= t);
        assert(forall|j: int| 0 <= j < t.len() ==> is_digit(#[trigger] t[j]));
    }
    if val > 255 {
        return None;
    }
    proof {
        if t.len() > 1 {
            assert(t[0] != '0');
        }
    }
    Some(val as u8)
}

/// Parse a text as an IPv4 address, exactly as the grammar has it:
/// four dot-separated octet tokens and nothing more, or no address.
pub fn parse_ipv4(s: &str) -> (r: Option<crate::addr::IpAddress>)
    ensures
        r == parse_ipv4_spec(s@),
{
    let n = s.unicode_len();
    let d1 = match find_char(s, '.', 0) {
        Option::None => {
            return None;
        },
        Option::Some(k) => k,
    };
    let d2 = match find_char(s, '.', d1 + 1) {
        Option::None => {
            return None;
        },
        Option::Some(k) => k,
    };
    let d3 = match find_char(s, '.', d2 + 1) {
        Option::None => {
            return None;
        },
        Option::Some(k) => k,
    };
    let v1 = match octet_value(s, 0, d1) {
        Option::None => {
            return None;
        },
        Option::Some(v) => v,
    };
    let v2 = match octet_value(s, d1 + 1, d2) {
        Option::None => {
            return None;
        },
        Option::Some(v) => v,
    };
    let v3 = match octet_value(s, d2 + 1, d3) {
        Option::None => {
            return None;
        },
        Option::Some(v) => v,
    };
    let v4 = match octet_value(s, d3 + 1, n) {
        Option::None => {
            return None;
        },
        Option::Some(v) => v,
    };
    Some(crate::addr::IpAddress::V4 { octets: [v1, v2, v3, v4] })
}

/// Whether `c` is a hexadecimal digit, either case.
pub open spec fn is_hex_digit(c: char) -> bool {
    ('0' <= c && c <= '9') || ('a' <= c && c <= 'f') || ('A' <= c && c <= 'F')
}

/// The value of a hexadecimal digit character, either case.
pub open spec fn hex_digit_val(c: char) -> int {
    if '0' <= c && c <= '9' {
        c as int - '0' as int
    } else if 'a' <= c && c <= 'f' {
        c as int - 'a' as int + 10
    } else {
        c as int - 'A' as int + 10
    }
}

/// The number a hex text denotes, most significant digit first.
pub open spec fn hex_group_val(t: Seq<char>) -> int
    decreases t.len(),
{
    if t.len() == 0 {
        0
    } else {
        hex_group_val(t.drop_last()) * 16 + hex_digit_val(t.last())
    }
}

/// An IPv6 group token: one to four hex digits.
pub open spec fn valid_group(t: Seq<char>) -> bool {
    1 <= t.len() <= 4 && (forall|i: int| 0 <= i < t.len() ==> is_hex_digit(#[trigger] t[i]))
}

/// A hex text of at most four digits denotes at most 65535.
proof fn lemma_hex_group_val_small(t: Seq<char>)
    requires
        forall|i: int| 0 <= i < t.len() ==> is_hex_digit(#[trigger] t[i]),
        t.len() <= 4,
    ensures
        0 <= hex_group_val(t),
        t.len() == 0 ==> hex_group_val(t) == 0,
        t.len() <= 1 ==> hex_group_val(t) <= 15,
        t.len() <= 2 ==> hex_group_val(t) <= 255,
        t.len() <= 3 ==> hex_group_val(t) <= 4095,
        hex_group_val(t) <= 65535,
    decreases t.len(),
{
    if t.len() > 0 {
        assert(forall|i: int|
            0 <= i < t.drop_last().len() ==> is_hex_digit(#[trigger] t.drop_last()[i]));
        lemma_hex_group_val_small(t.drop_last());
        assert(is_hex_digit(t.last()));
        assert(0 <= hex_digit_val(t.last()) <= 15);
    }
}

/// Hex digit characters and hex digit values correspond one to one on
/// the characters the formatter writes.
pub proof fn lemma_hex_char_val()
    ensures
        forall|d: int|
            0 <= d <= 15 ==> is_hex_digit(#[trigger] crate::text::hex_char(d)) && hex_digit_val(
                crate::text::hex_char(d),
            ) == d,
{
    assert forall|d: int| 0 <= d <= 15 implies is_hex_digit(#[trigger] crate::text::hex_char(d))
        && hex_digit_val(crate::text::hex_char(d)) == d by {
        assert('0' as int == 48 && '1' as int == 49 && '2' as int == 50 && '3' as int == 51
            && '4' as int == 52 && '5' as int == 53 && '6' as int == 54 && '7' as int == 55
            && '8' as int == 56 && '9' as int == 57 && 'a' as int == 97 && 'b' as int == 98
            && 'c' as int == 99 && 'd' as int == 100 && 'e' as int == 101 && 'f' as int == 102
            && 'A' as int == 65 && 'F' as int == 70);
    }
}

/// The canonical hex digits of a group value are a valid group token
/// and denote that value.
pub proof fn lemma_hex_digits_group(n: int)
    requires
        0 <= n <= 65535,
    ensures
        valid_group(crate::text::hex_digits(n)),
        hex_group_val(crate::text::hex_digits(n)) == n,
    decreases n,
{
    lemma_hex_char_val();
    let t = crate::text::hex_digits(n);
    assert(hex_group_val(Seq::<char>::empty()) == 0);
    if n <= 15 {
        assert(t =~= seq![crate::text::hex_char(n)]);
        assert(t.drop_last() =~= Seq::<char>::empty());
        assert(hex_group_val(t) == hex_group_val(t.drop_last()) * 16 + hex_digit_val(t.last()));
    } else {
        lemma_hex_digits_group(n / 16);
        let h = crate::text::hex_digits(n / 16);
        assert(t == h.push(crate::text::hex_char(n % 16)));
        assert(t.drop_last() =~= h);
        assert(t.last() == crate::text::hex_char(n % 16));
        assert(hex_digit_val(crate::text::hex_char(n % 16)) == n % 16);
        assert(hex_group_val(t) == hex_group_val(t.drop_last()) * 16 + hex_digit_val(t.last()));
        assert(hex_group_val(t) == (n / 16) * 16 + n % 16);
        assert((n / 16) * 16 + n % 16 == n);
        if n <= 255 {
            assert(1 <= n / 16 <= 15);
            assert(h =~= seq![crate::text::hex_char(n / 16)]);
            assert(t.len() == 2);
        } else if n <= 4095 {
            assert(16 <= n / 16 <= 255);
            assert(h.len() == 2) by {
                assert(h == crate::text::hex_digits(n / 16 / 16).push(
                    crate::text::hex_char((n / 16) % 16),
                ));
                assert(n / 16 / 16 <= 15) by (nonlinear_arith)
                    requires
                        16 <= n / 16 <= 255,
                ;
                assert(crate::text::hex_digits(n / 16 / 16) =~= seq![
                    crate::text::hex_char(n / 16 / 16),
                ]);
            }
            assert(t.len() == 3);
        } else {
            assert(256 <= n / 16 <= 4095) by (nonlinear_arith)
                requires
                    4096 <= n <= 65535,
            ;
            assert(h.len() == 3) by {
                assert(h == crate::text::hex_digits(n / 16 / 16).push(
                    crate::text::hex_char((n / 16) % 16),
                ));
                let h2 = crate::text::hex_digits(n / 16 / 16);
                assert(16 <= n / 16 / 16 <= 255) by (nonlinear_arith)
                    requires
                        256 <= n / 16 <= 4095,
                ;
                assert(h2 == crate::text::hex_digits(n / 16 / 16 / 16).push(
                    crate::text::hex_char((n / 16 / 16) % 16),
                ));
                assert(n / 16 / 16 / 16 <= 15) by (nonlinear_arith)
                    requires
                        16 <= n / 16 / 16 <= 255,
                ;
                assert(crate::text::hex_digits(n / 16 / 16 / 16) =~= seq![
                    crate::text::hex_char(n / 16 / 16 / 16),
                ]);
            }
            assert(t.len() == 4);
        }
        assert(forall|i: int| 0 <= i < t.len() ==> is_hex_digit(#[trigger] t[i]));
    }
}

/// The group values of colon-separated group tokens from position `i`
/// to the end, when every token is valid and none is empty.
pub open spec fn parse_groups_from(s: Seq<char>, i: int) -> Option<Seq<u16>>
    decreases s.len() - i,
{
    if i < 0 || i > s.len() {
        None
    } else {
        match first_occurrence(s, ':', i) {
            Option::None => {
                let tok = s.subrange(i, s.len() as int);
                if valid_group(tok) {
                    Some(seq![hex_group_val(tok) as u16])
                } else {
                    None
                }
            },
            Option::Some(t) => {
                if t < i || t >= s.len() {
                    None
                } else {
                    let tok = s.subrange(i, t);
                    if valid_group(tok) {
                        match parse_groups_from(s, t + 1) {
                            Option::None => None,
                            Option::Some(gs) => Some(seq![hex_group_val(tok) as u16] + gs),
                        }
                    } else {
                        None
                    }
                }
            },
        }
    }
}

/// A hex digit is never a colon.
proof fn lemma_hex_digit_not_colon(c: char)
    requires
        is_hex_digit(c),
    ensures
        c != ':',
{
    assert(':' as int == 58 && '0' as int == 48 && '9' as int == 57 && 'a' as int == 97
        && 'f' as int == 102 && 'A' as int == 65 && 'F' as int == 70);
}

/// The shape of a join of group tokens: it is nonempty, begins and ends
/// with a token character, and never puts two colons side by side.
proof fn lemma_join_group_chars(parts: Seq<Seq<char>>)
    requires
        forall|k: int| 0 <= k < parts.len() ==> valid_group(#[trigger] parts[k]),
        parts.len() >= 1,
    ensures
        join_with(parts, ':').len() >= 1,
        is_hex_digit(join_with(parts, ':')[0]),
        is_hex_digit(join_with(parts, ':').last()),
        forall|k: int|
            0 <= k && k + 1 < join_with(parts, ':').len() ==> !(#[trigger] join_with(parts, ':')[k]
                == ':' && join_with(parts, ':')[k + 1] == ':'),
    decreases parts.len(),
{
    let j = join_with(parts, ':');
    if parts.len() == 1 {
        assert(j == parts[0]);
        assert forall|k: int| 0 <= k && k + 1 < j.len() implies !(#[trigger] j[k] == ':' && j[k
            + 1] == ':') by {
            lemma_hex_digit_not_colon(j[k]);
        }
    } else {
        assert(forall|k: int|
            0 <= k < parts.drop_first().len() ==> valid_group(#[trigger] parts.drop_first()[k]));
        lemma_join_group_chars(parts.drop_first());
        let p0 = parts[0];
        let rest = join_with(parts.drop_first(), ':');
        let l0 = p0.len() as int;
        assert(j == p0 + seq![':'] + rest);
        assert(valid_group(p0));
        assert(is_hex_digit(j[0]));
        assert(j.last() == rest.last());
        assert forall|k: int| 0 <= k && k + 1 < j.len() implies !(#[trigger] j[k] == ':' && j[k
            + 1] == ':') by {
            if k + 1 < l0 {
                lemma_hex_digit_not_colon(p0[k]);
            } else if k + 1 == l0 {
                lemma_hex_digit_not_colon(p0[k]);
            } else if k == l0 {
                assert(j[k + 1] == rest[0]);
                lemma_hex_digit_not_colon(rest[0]);
            } else {
                assert(j[k] == rest[k - l0 - 1] && j[k + 1] == rest[k - l0]);
            }
        }
    }
}

/// Parsing a suffix that is a join of valid group tokens yields exactly
/// the tokens' values.
proof fn lemma_parse_groups_join(s: Seq<char>, i: int, parts: Seq<Seq<char>>)
    requires
        0 <= i <= s.len(),
        s.subrange(i, s.len() as int) == join_with(parts, ':'),
        parts.len() >= 1,
        forall|k: int| 0 <= k < parts.len() ==> valid_group(#[trigger] parts[k]),
    ensures
        parse_groups_from(s, i) == Some(
            parts.map_values(|p: Seq<char>| hex_group_val(p) as u16),
        ),
    decreases parts.len(),
{
    let suffix = s.subrange(i, s.len() as int);
    let vals = parts.map_values(|p: Seq<char>| hex_group_val(p) as u16);
    lemma_first_occurrence_props(s, ':', i);
    if parts.len() == 1 {
        assert(suffix == parts[0]);
        assert(first_occurrence(s, ':', i) is None) by {
            match first_occurrence(s, ':', i) {
                Option::Some(k) => {
                    assert(s[k] == suffix[k - i]);
                    lemma_hex_digit_not_colon(suffix[k - i]);
                },
                Option::None => {},
            }
        }
        assert(parse_groups_from(s, i) == Some(seq![hex_group_val(parts[0]) as u16]));
        assert(vals =~= seq![hex_group_val(parts[0]) as u16]);
    } else {
        assert(forall|k: int|
            0 <= k < parts.drop_first().len() ==> valid_group(#[trigger] parts.drop_first()[k]));
        lemma_join_group_chars(parts.drop_first());
        let p0 = parts[0];
        let rest = join_with(parts.drop_first(), ':');
        let l0 = p0.len() as int;
        assert(suffix == p0 + seq![':'] + rest);
        assert(rest.len() >= 1);
        let t = i + l0;
        lemma_hex_group_val_small(p0);
        assert(suffix[l0] == (p0 + seq![':'] + rest)[l0]);
        assert((p0 + seq![':'] + rest)[l0] == ':');
        assert(s[t] == suffix[l0]);
        assert(forall|k: int| 0 <= k < l0 ==> suffix[k] == #[trigger] p0[k]);
        assert(forall|k: int| i <= k < t ==> #[trigger] s[k] == suffix[k - i]);
        assert(first_occurrence(s, ':', i) == Some(t)) by {
            match first_occurrence(s, ':', i) {
                Option::Some(k) => {
                    if k < t {
                        assert(s[k] == p0[k - i]);
                        lemma_hex_digit_not_colon(p0[k - i]);
                    } else if k > t {
                        assert(s[t] != ':');
                    }
                },
                Option::None => {
                    assert(s[t] != ':');
                },
            }
        }
        assert(s.subrange(i, t) =~= p0);
        assert(forall|k: int| i <= k < s.len() ==> #[trigger] s[k] == suffix[k - i]);
        assert(s.subrange(t + 1, s.len() as int) =~= rest);
        lemma_parse_groups_join(s, t + 1, parts.drop_first());
        let rest_vals = parts.drop_first().map_values(|p: Seq<char>| hex_group_val(p) as u16);
        assert(parse_groups_from(s, t + 1) == Some(rest_vals));
        assert(parse_groups_from(s, i) == Some(seq![hex_group_val(p0) as u16] + rest_vals));
        assert(vals =~= seq![hex_group_val(p0) as u16] + rest_vals);
    }
}

/// The position of the first `::` at or after `i`.
pub open spec fn first_dc_from(s: Seq<char>, i: int) -> Option<int>
    decreases s.len() - i,
{
    if i < 0 || i + 1 >= s.len() {
        None
    } else if s[i] == ':' && s[i + 1] == ':' {
        Some(i)
    } else {
        first_dc_from(s, i + 1)
    }
}

/// What the first `::` means: the found position starts a `::` and no
/// earlier position does; not finding one means there is no `::`.
pub proof fn lemma_first_dc_props(s: Seq<char>, i: int)
    requires
        0 <= i,
    ensures
        match first_dc_from(s, i) {
            Option::Some(k) => i <= k && k + 1 < s.len() && s[k] == ':' && s[k + 1] == ':' && (
            forall|j: int| i <= j < k ==> !(#[trigger] s[j] == ':' && s[j + 1] == ':')),
            Option::None => forall|j: int|
                i <= j && j + 1 < s.len() ==> !(#[trigger] s[j] == ':' && s[j + 1] == ':'),
        },
    decreases s.len() - i,
{
    if i + 1 < s.len() && !(s[i] == ':' && s[i + 1] == ':') {
        lemma_first_dc_props(s, i + 1);
    }
}

/// That many zero groups.
pub open spec fn zeros16(n: int) -> Seq<u16> {
    Seq::new(n as nat, |i: int| 0u16)
}

/// The eight group values of an IPv6 text: either exactly eight
/// colon-separated group tokens, or one `::` standing for the missing
/// zero groups between at most seven surrounding tokens.
pub open spec fn parse_ipv6_groups(s: Seq<char>) -> Option<Seq<u16>> {
    match first_dc_from(s, 0) {
        Option::None => match parse_groups_from(s, 0) {
            Option::Some(gs) => if gs.len() == 8 {
                Some(gs)
            } else {
                None
            },
            Option::None => None,
        },
        Option::Some(d) => {
            let left = if d == 0 {
                Some(Seq::<u16>::empty())
            } else {
                parse_groups_from(s.subrange(0, d), 0)
            };
            let right = if d + 2 == s.len() {
                Some(Seq::<u16>::empty())
            } else {
                parse_groups_from(s.subrange(d + 2, s.len() as int), 0)
            };
            match (left, right) {
                (Option::Some(l), Option::Some(r)) => if l.len() + r.len() <= 7 {
                    Some(l + zeros16(8 - l.len() - r.len()) + r)
                } else {
                    None
                },
                _ => None,
            }
        },
    }
}

/// An accepted IPv6 text always denotes exactly eight groups.
pub proof fn lemma_parse_ipv6_groups_len(s: Seq<char>)
    ensures
        match parse_ipv6_groups(s) {
            Option::Some(gs) => gs.len() == 8,
            Option::None => true,
        },
{
}

/// The eight groups as an array, most significant first.
pub open spec fn groups8(gs: Seq<u16>) -> [u16; 8] {
    [gs[0], gs[1], gs[2], gs[3], gs[4], gs[5], gs[6], gs[7]]
}

/// The parsed IPv6 address of a text.
pub open spec fn parse_ipv6_spec(s: Seq<char>) -> Option<crate::addr::IpAddress> {
    match parse_ipv6_groups(s) {
        Option::Some(gs) => Some(crate::addr::IpAddress::V6 { groups: groups8(gs) }),
        Option::None => None,
    }
}

/// The parsed address of a text: dotted decimal first, hex groups
/// otherwise.
pub open spec fn parse_ip_spec(s: Seq<char>) -> Option<crate::addr::IpAddress> {
    match parse_ipv4_spec(s) {
        Option::Some(ip) => Some(ip),
        Option::None => parse_ipv6_spec(s),
    }
}

/// Read the group token in `from..to`, if that range holds one.
fn group_value(s: &str, from: usize, to: usize) -> (r: Option<u16>)
    requires
        from <= to <= s@.len(),
    ensures
        match r {
            Option::Some(v) => valid_group(s@.subrange(from as int, to as int)) && hex_group_val(
                s@.subrange(from as int, to as int),
            ) == v as int,
            Option::None => !valid_group(s@.subrange(from as int, to as int)),
        },
{
    let ghost t = s@.subrange(from as int, to as int);
    let len = to - from;
    if len < 1 || len > 4 {
        return None;
    }
    let mut i = from;
    let mut val: u32 = 0;
    proof {
        assert(t.subrange(0, 0) =~= Seq::<char>::empty());
        assert(hex_group_val(Seq::<char>::empty()) == 0);
    }
    while i < to
        invariant
            from <= i <= to <= s@.len(),
            to - from <= 4,
            t == s@.subrange(from as int, to as int),
            forall|j: int| 0 <= j < i - from ==> is_hex_digit(#[trigger] t[j]),
            val == hex_group_val(t.subrange(0, i - from)),
            val <= 65535,
        decreases to - i,
    {
        let ch = s.get_char(i);
        let u = ch as u32;
        let d: u32 = if u >= 48 && u <= 57 {
            u - 48
        } else if u >= 97 && u <= 102 {
            u - 87
        } else if u >= 65 && u <= 70 {
            u - 55
        } else {
            proof {
                assert(t[i - from] == ch);
                assert(!is_hex_digit(ch)) by {
                    assert('0' as int == 48 && '9' as int == 57 && 'a' as int == 97 && 'f' as int
                        == 102 && 'A' as int == 65 && 'F' as int == 70);
                }
            }
            return None;
        };
        proof {
            let pre = t.subrange(0, i - from);
            let post = t.subrange(0, i + 1 - from);
            assert(post.drop_last() =~= pre);
            assert(post.last() == t[i - from]);
            assert(t[i - from] == ch);
            assert(is_hex_digit(ch) && hex_digit_val(ch) == d) by {
                assert('0' as int == 48 && '9' as int == 57 && 'a' as int == 97 && 'f' as int
                    == 102 && 'A' as int == 65 && 'F' as int == 70);
            }
            assert(hex_group_val(post) == hex_group_val(pre) * 16 + hex_digit_val(ch));
            assert(forall|j: int| 0 <= j < post.len() ==> is_hex_digit(#[trigger] post[j]));
            lemma_hex_group_val_small(pre);
        }
        val = val * 16 + d;
        i = i + 1;
    }
    proof {
        assert(t.subrange(0, to - from) =~= t);
        assert(forall|j: int| 0 <= j < t.len() ==> is_hex_digit(#[trigger] t[j]));
        lemma_hex_group_val_small(t);
    }
    Some(val as u16)
}

/// Read the colon-separated group tokens from `i` to the end.
fn parse_groups(s: &str, i: usize) -> (r: Option<Vec<u16>>)
    requires
        i <= s@.len(),
    ensures
        match r {
            Option::Some(v) => parse_groups_from(s@, i as int) == Some(v@),
            Option::None => parse_groups_from(s@, i as int) is None,
        },
    decreases s@.len() - i,
{
    let n = s.unicode_len();
    match find_char(s, ':', i) {
        Option::None => {
            match group_value(s, i, n) {
                Option::None => None,
                Option::Some(v) => {
                    let mut out: Vec<u16> = Vec::new();
                    out.push(v);
                    proof {
                        assert(out@ =~= seq![v]);
                    }
                    Some(out)
                },
            }
        },
        Option::Some(t) => {
            match group_value(s, i, t) {
                Option::None => None,
                Option::Some(v) => {
                    match parse_groups(s, t + 1) {
                        Option::None => None,
                        Option::Some(rest) => {
                            let mut rest = rest;
                            let ghost r0 = rest@;
                            rest.insert(0, v);
                            proof {
                                assert(rest@ =~= seq![v] + r0);
                            }
                            Some(rest)
                        },
                    }
                },
            }
        },
    }
}

/// The position of the first `::`.
fn find_dc(s: &str) -> (r: Option<usize>)
    ensures
        match r {
            Option::Some(k) => k + 1 < s@.len() && first_dc_from(s@, 0) == Some(k as int),
            Option::None => first_dc_from(s@, 0) is None,
        },
{
    let n = s.unicode_len();
    if n < 2 {
        proof {
            lemma_first_dc_props(s@, 0);
            if first_dc_from(s@, 0) is Some {
                let k = first_dc_from(s@, 0)->0;
                assert(k + 1 < s@.len());
            }
        }
        return None;
    }
    let mut i: usize = 0;
    while i < n - 1
        invariant
            n >= 2,
            i <= n,
            n == s@.len(),
            forall|j: int| 0 <= j < i ==> !(#[trigger] s@[j] == ':' && s@[j + 1] == ':'),
        decreases n - i,
    {
        if s.get_char(i) == ':' && s.get_char(i + 1) == ':' {
            proof {
                lemma_first_dc_props(s@, 0);
                match first_dc_from(s@, 0) {
                    Option::Some(k) => {
                        if k < i as int {
                        } else if k > i as int {
                            assert(!(s@[i as int] == ':' && s@[i as int + 1] == ':'));
                        }
                    },
                    Option::None => {
                        assert(!(s@[i as int] == ':' && s@[i as int + 1] == ':'));
                    },
                }
            }
            return Some(i);
        }
        i = i + 1;
    }
    proof {
        lemma_first_dc_props(s@, 0);
        if first_dc_from(s@, 0) is Some {
            let k = first_dc_from(s@, 0)->0;
            assert(!(s@[k] == ':' && s@[k + 1] == ':'));
        }
    }
    None
}

/// A zero run fits in the groups and covers only zeros.
proof fn lemma_zero_run_props(groups: Seq<u16>, i: int)
    requires
        0 <= i <= groups.len(),
    ensures
        0 <= crate::addr::zero_run_len(groups, i) <= groups.len() - i,
        forall|k: int|
            i <= k < i + crate::addr::zero_run_len(groups, i) ==> #[trigger] groups[k] == 0,
    decreases groups.len() - i,
{
    if i < groups.len() && groups[i] == 0 {
        lemma_zero_run_props(groups, i + 1);
    }
}

/// A found zero run starts at a valid position and is at least two
/// groups long.
proof fn lemma_best_run_props(groups: Seq<u16>, i: int)
    requires
        0 <= i,
    ensures
        match crate::addr::best_zero_run_from(groups, i) {
            Option::Some(st) => i <= st < groups.len() && crate::addr::zero_run_len(groups, st)
                >= 2,
            Option::None => true,
        },
    decreases groups.len() - i,
{
    if i < groups.len() {
        lemma_best_run_props(groups, i + 1);
    }
}

/// Parsing the text of an IPv6 address gives back exactly its groups:
/// formatting and parsing round-trip, `::` compression included.
#[verifier::rlimit(50)]
pub proof fn lemma_parse_ipv6_round_trip(groups: [u16; 8])
    ensures
        parse_ipv6_groups(crate::addr::ipv6_text(groups@)) == Some(groups@),
{
    let g = groups@;
    assert(g.len() == 8);
    let s = crate::addr::ipv6_text(g);
    lemma_best_run_props(g, 0);
    lemma_first_dc_props(s, 0);
    match crate::addr::best_zero_run_from(g, 0) {
        Option::None => {
            let ht = crate::addr::hex_texts(g);
            assert forall|k: int| 0 <= k < ht.len() implies valid_group(#[trigger] ht[k])
                && hex_group_val(ht[k]) == g[k] by {
                lemma_hex_digits_group(g[k] as int);
                assert(ht[k] == crate::text::hex_digits(g[k] as int));
            }
            assert(s == join_with(ht, ':'));
            lemma_join_group_chars(ht);
            assert(first_dc_from(s, 0) is None) by {
                match first_dc_from(s, 0) {
                    Option::Some(k) => {
                        assert(!(s[k] == ':' && s[k + 1] == ':'));
                    },
                    Option::None => {},
                }
            }
            assert(s.subrange(0, s.len() as int) =~= s);
            lemma_parse_groups_join(s, 0, ht);
            let vals = ht.map_values(|p: Seq<char>| hex_group_val(p) as u16);
            assert(vals =~= g);
        },
        Option::Some(st) => {
            let l = crate::addr::zero_run_len(g, st);
            lemma_zero_run_props(g, st);
            let pre = g.subrange(0, st);
            let suf = g.subrange(st + l, 8);
            let pa = crate::addr::hex_texts(pre);
            let pb = crate::addr::hex_texts(suf);
            let ja = join_with(pa, ':');
            let jb = join_with(pb, ':');
            assert(s == ja + seq![':', ':'] + jb);
            assert forall|k: int| 0 <= k < pa.len() implies valid_group(#[trigger] pa[k])
                && hex_group_val(pa[k]) == pre[k] by {
                lemma_hex_digits_group(pre[k] as int);
                assert(pa[k] == crate::text::hex_digits(pre[k] as int));
            }
            assert forall|k: int| 0 <= k < pb.len() implies valid_group(#[trigger] pb[k])
                && hex_group_val(pb[k]) == suf[k] by {
                lemma_hex_digits_group(suf[k] as int);
                assert(pb[k] == crate::text::hex_digits(suf[k] as int));
            }
            let d = ja.len() as int;
            if pre.len() > 0 {
                lemma_join_group_chars(pa);
            } else {
                assert(pa.len() == 0);
                assert(ja.len() == 0);
            }
            if suf.len() > 0 {
                lemma_join_group_chars(pb);
            } else {
                assert(pb.len() == 0);
                assert(jb.len() == 0);
            }
            assert(s.len() == d + 2 + jb.len());
            assert(s[d] == ':' && s[d + 1] == ':');
            assert(forall|k: int| 0 <= k < d ==> #[trigger] s[k] == ja[k]);
            assert(forall|k: int| d + 2 <= k < s.len() ==> #[trigger] s[k] == jb[k - d - 2]);
            assert(first_dc_from(s, 0) == Some(d)) by {
                match first_dc_from(s, 0) {
                    Option::Some(k) => {
                        if k + 1 < d {
                            assert(!(ja[k] == ':' && ja[k + 1] == ':'));
                        } else if k + 1 == d {
                            assert(s[k] == ja[d - 1]);
                            assert(ja[d - 1] == ja.last());
                            lemma_hex_digit_not_colon(ja.last());
                        } else if k > d {
                            assert(!(s[d] == ':' && s[d + 1] == ':'));
                        }
                    },
                    Option::None => {
                        assert(!(s[d] == ':' && s[d + 1] == ':'));
                    },
                }
            }
            let lvals = pa.map_values(|p: Seq<char>| hex_group_val(p) as u16);
            let rvals = pb.map_values(|p: Seq<char>| hex_group_val(p) as u16);
            if d == 0 {
                assert(pre.len() == 0) by {
                    if pre.len() > 0 {
                        assert(ja.len() >= 1);
                    }
                }
            } else {
                assert(pre.len() > 0);
                let sa = s.subrange(0, d);
                assert(sa =~= ja);
                assert(sa.subrange(0, sa.len() as int) =~= ja);
                lemma_parse_groups_join(sa, 0, pa);
                assert(parse_groups_from(sa, 0) == Some(lvals));
            }
            if d + 2 == s.len() {
                assert(jb.len() == 0);
                assert(suf.len() == 0) by {
                    if suf.len() > 0 {
                        assert(jb.len() >= 1);
                    }
                }
            } else {
                assert(jb.len() > 0);
                assert(suf.len() > 0) by {
                    if suf.len() == 0 {
                        assert(jb.len() == 0);
                    }
                }
                let sb = s.subrange(d + 2, s.len() as int);
                assert(sb =~= jb);
                assert(sb.subrange(0, sb.len() as int) =~= jb);
                lemma_parse_groups_join(sb, 0, pb);
                assert(parse_groups_from(sb, 0) == Some(rvals));
            }
            let left = if d == 0 {
                Seq::<u16>::empty()
            } else {
                lvals
            };
            let right = if d + 2 == s.len() {
                Seq::<u16>::empty()
            } else {
                rvals
            };
            assert(left.len() == pre.len() && right.len() == suf.len()) by {
                if d == 0 {
                    assert(pre.len() == 0);
                }
                if d + 2 == s.len() {
                    assert(suf.len() == 0);
                }
            }
            assert(forall|k: int| 0 <= k < left.len() ==> #[trigger] left[k] == pre[k]);
            assert(forall|k: int| 0 <= k < right.len() ==> #[trigger] right[k] == suf[k]);
            assert(st + l <= 8);
            assert(left.len() + right.len() == 8 - l);
            assert(left.len() + right.len() <= 7);
            assert(left + zeros16(8 - left.len() - right.len()) + right =~= g);
        },
    }
}

/// Parse a text as an IPv6 address, exactly as the grammar has it.
pub fn parse_ipv6(s: &str) -> (r: Option<crate::addr::IpAddress>)
    ensures
        r == parse_ipv6_spec(s@),
{
    let n = s.unicode_len();
    match find_dc(s) {
        Option::None => {
            match parse_groups(s, 0) {
                Option::None => None,
                Option::Some(gs) => {
                    if gs.len() == 8 {
                        let arr: [u16; 8] = [
                            gs[0],
                            gs[1],
                            gs[2],
                            gs[3],
                            gs[4],
                            gs[5],
                            gs[6],
                            gs[7],
                        ];
                        Some(crate::addr::IpAddress::V6 { groups: arr })
                    } else {
                        None
                    }
                },
            }
        },
        Option::Some(d) => {
            let left: Vec<u16> = if d == 0 {
                Vec::new()
            } else {
                let left_str = s.substring_char(0, d);
                match parse_groups(left_str, 0) {
                    Option::None => {
                        return None;
                    },
                    Option::Some(v) => v,
                }
            };
            let right: Vec<u16> = if d + 2 == n {
                Vec::new()
            } else {
                let right_str = s.substring_char(d + 2, n);
                match parse_groups(right_str, 0) {
                    Option::None => {
                        return None;
                    },
                    Option::Some(v) => v,
                }
            };
            if left.len() > 7 || right.len() > 7 - left.len() {
                proof {
                    assert(left@.len() + right@.len() > 7);
                }
                return None;
            }
            let fill = 8 - left.len() - right.len();
            let ghost lv = left@;
            let ghost rv = right@;
            let mut g = left;
            let mut k: usize = 0;
            while k < fill
                invariant
                    k <= fill,
                    g@ == lv + zeros16(k as int),
                decreases fill - k,
            {
                g.push(0);
                proof {
                    assert(g@ =~= lv + zeros16(k + 1));
                }
                k = k + 1;
            }
            let mut j: usize = 0;
            while j < right.len()
                invariant
                    j <= rv.len(),
                    rv == right@,
                    g@ == lv + zeros16(fill as int) + rv.subrange(0, j as int),
                decreases right.len() - j,
            {
                g.push(right[j]);
                proof {
                    assert(g@ =~= lv + zeros16(fill as int) + rv.subrange(0, j + 1));
                }
                j = j + 1;
            }
            proof {
                assert(rv.subrange(0, rv.len() as int) =~= rv);
                assert(g@ == lv + zeros16(fill as int) + rv);
                assert(g@.len() == 8);
            }
            let arr: [u16; 8] = [g[0], g[1], g[2], g[3], g[4], g[5], g[6], g[7]];
            Some(crate::addr::IpAddress::V6 { groups: arr })
        },
    }
}

/// Parse a text as an address: dotted decimal first, hex groups
/// otherwise. A text neither grammar accepts is no address.
pub fn parse_ip(s: &str) -> (r: Option<crate::addr::IpAddress>)
    ensures
        r == parse_ip_spec(s@),
{
    match parse_ipv4(s) {
        Option::Some(ip) => Some(ip),
        Option::None => parse_ipv6(s),
    }
}

} // verus!
