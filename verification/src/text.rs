//! Text building blocks: digit characters, decimal and hexadecimal
//! renderings of small numbers, and separator-joined sequences.
//!
//! Every executable builder here is proved to produce exactly the text
//! that the corresponding spec function describes.

use vstd::prelude::*;

verus! {

/// The decimal digit character for a value below ten.
pub open spec fn digit_char(d: int) -> char {
    if d == 0 { '0' }
    else if d == 1 { '1' }
    else if d == 2 { '2' }
    else if d == 3 { '3' }
    else if d == 4 { '4' }
    else if d == 5 { '5' }
    else if d == 6 { '6' }
    else if d == 7 { '7' }
    else if d == 8 { '8' }
    else { '9' }
}

/// The lower-case hexadecimal digit character for a value below sixteen.
pub open spec fn hex_char(d: int) -> char {
    if d < 10 { digit_char(d) }
    else if d == 10 { 'a' }
    else if d == 11 { 'b' }
    else if d == 12 { 'c' }
    else if d == 13 { 'd' }
    else if d == 14 { 'e' }
    else { 'f' }
}

/// The decimal digits of a non-negative number, most significant first,
/// with no leading zero.
pub open spec fn dec_digits(n: int) -> Seq<char>
    decreases n,
{
    if n <= 9 {
        seq![digit_char(n)]
    } else {
        dec_digits(n / 10).push(digit_char(n % 10))
    }
}

/// The lower-case hexadecimal digits of a non-negative number, most
/// significant first, with no leading zero.
pub open spec fn hex_digits(n: int) -> Seq<char>
    decreases n,
{
    if n <= 15 {
        seq![hex_char(n)]
    } else {
        hex_digits(n / 16).push(hex_char(n % 16))
    }
}

/// The given parts joined by one separator character between neighbours.
pub open spec fn join_with(parts: Seq<Seq<char>>, sep: char) -> Seq<char>
    decreases parts.len(),
{
    if parts.len() == 0 {
        Seq::empty()
    } else if parts.len() == 1 {
        parts[0]
    } else {
        parts[0] + seq![sep] + join_with(parts.drop_first(), sep)
    }
}

/// Joining one more part appends a separator and that part.
pub proof fn lemma_join_push(parts: Seq<Seq<char>>, p: Seq<char>, sep: char)
    requires
        parts.len() > 0,
    ensures
        join_with(parts.push(p), sep) == join_with(parts, sep) + seq![sep] + p,
    decreases parts.len(),
{
    if parts.len() == 1 {
        assert(parts.push(p).drop_first() =~= seq![p]);
        assert(join_with(seq![p], sep) == p);
        assert(join_with(parts.push(p), sep) == parts.push(p)[0] + seq![sep] + join_with(
            parts.push(p).drop_first(),
            sep,
        ));
        assert(join_with(parts.push(p), sep) =~= parts[0] + seq![sep] + p);
        assert(join_with(parts, sep) + seq![sep] + p =~= parts[0] + seq![sep] + p);
    } else {
        lemma_join_push(parts.drop_first(), p, sep);
        assert(parts.push(p).drop_first() =~= parts.drop_first().push(p));
        assert(join_with(parts, sep) + seq![sep] + p =~= parts[0] + seq![sep] + (join_with(
            parts.drop_first(),
            sep,
        ) + seq![sep] + p));
    }
}

/// Lexicographic order on texts, comparing characters by code point.
pub open spec fn text_le(a: Seq<char>, b: Seq<char>) -> bool
    decreases a.len(),
{
    if a.len() == 0 {
        true
    } else if b.len() == 0 {
        false
    } else if a[0] != b[0] {
        (a[0] as int) < (b[0] as int)
    } else {
        text_le(a.drop_first(), b.drop_first())
    }
}

/// The order as a relation value, for use with sorting.
pub open spec fn text_le_fn() -> spec_fn(Seq<char>, Seq<char>) -> bool {
    |a: Seq<char>, b: Seq<char>| text_le(a, b)
}

/// Every text is at most itself.
pub proof fn lemma_text_le_reflexive(a: Seq<char>)
    ensures
        text_le(a, a),
    decreases a.len(),
{
    if a.len() > 0 {
        lemma_text_le_reflexive(a.drop_first());
    }
}

/// Two texts each at most the other are equal.
pub proof fn lemma_text_le_antisymmetric(a: Seq<char>, b: Seq<char>)
    requires
        text_le(a, b),
        text_le(b, a),
    ensures
        a == b,
    decreases a.len(),
{
    if a.len() == 0 {
        assert(b.len() == 0);
        assert(a =~= b);
    } else {
        assert(b.len() > 0);
        assert(a[0] == b[0]);
        lemma_text_le_antisymmetric(a.drop_first(), b.drop_first());
        assert(a =~= seq![a[0]] + a.drop_first());
        assert(b =~= seq![b[0]] + b.drop_first());
    }
}

/// The order is transitive.
pub proof fn lemma_text_le_transitive(a: Seq<char>, b: Seq<char>, c: Seq<char>)
    requires
        text_le(a, b),
        text_le(b, c),
    ensures
        text_le(a, c),
    decreases a.len(),
{
    if a.len() == 0 || b.len() == 0 || c.len() == 0 {
    } else {
        if a[0] == b[0] && b[0] == c[0] {
            lemma_text_le_transitive(a.drop_first(), b.drop_first(), c.drop_first());
        }
    }
}

/// Any two texts are comparable.
pub proof fn lemma_text_le_connected(a: Seq<char>, b: Seq<char>)
    ensures
        text_le(a, b) || text_le(b, a),
    decreases a.len(),
{
    if a.len() == 0 || b.len() == 0 {
    } else if a[0] == b[0] {
        lemma_text_le_connected(a.drop_first(), b.drop_first());
    }
}

/// The order is a total ordering in the sense of `vstd::relations`.
pub proof fn lemma_text_le_total_ordering()
    ensures
        vstd::relations::total_ordering(text_le_fn()),
{
    let leq = text_le_fn();
    assert forall|a: Seq<char>, b: Seq<char>| #[trigger] leq(a, b) && #[trigger] leq(b, a)
        implies a == b by {
        lemma_text_le_antisymmetric(a, b);
    }
    assert forall|a: Seq<char>, b: Seq<char>, c: Seq<char>|
        #[trigger] leq(a, b) && #[trigger] leq(b, c) implies leq(a, c) by {
        lemma_text_le_transitive(a, b, c);
    }
    assert forall|a: Seq<char>, b: Seq<char>| true implies #[trigger] leq(a, b) || #[trigger] leq(
        b,
        a,
    ) by {
        lemma_text_le_connected(a, b);
    }
}

/// Decide the lexicographic order on two strings.
pub fn str_le(a: &str, b: &str) -> (r: bool)
    ensures
        r == text_le(a@, b@),
{
    let a_len = a.unicode_len();
    let b_len = b.unicode_len();
    let mut i: usize = 0;
    proof {
        assert(a@.skip(0) =~= a@);
        assert(b@.skip(0) =~= b@);
    }
    loop
        invariant
            i <= a_len,
            i <= b_len,
            a_len == a@.len(),
            b_len == b@.len(),
            text_le(a@, b@) == text_le(a@.skip(i as int), b@.skip(i as int)),
        decreases a_len - i,
    {
        if i >= a_len {
            proof {
                assert(a@.skip(i as int).len() == 0);
            }
            return true;
        }
        if i >= b_len {
            proof {
                assert(b@.skip(i as int).len() == 0);
                assert(a@.skip(i as int).len() > 0);
            }
            return false;
        }
        let ca = a.get_char(i);
        let cb = b.get_char(i);
        proof {
            let sa = a@.skip(i as int);
            let sb = b@.skip(i as int);
            assert(sa[0] == a@[i as int] && sb[0] == b@[i as int]);
            assert(sa.drop_first() =~= a@.skip(i + 1));
            assert(sb.drop_first() =~= b@.skip(i + 1));
        }
        if ca != cb {
            return (ca as u32) < (cb as u32);
        }
        i = i + 1;
    }
}

/// Append one decimal digit character.
pub fn push_digit(s: &mut String, d: u8)
    requires
        d < 10,
    ensures
        final(s)@ == old(s)@ + seq![digit_char(d as int)],
{
    proof {
        reveal_strlit("0");
        reveal_strlit("1");
        reveal_strlit("2");
        reveal_strlit("3");
        reveal_strlit("4");
        reveal_strlit("5");
        reveal_strlit("6");
        reveal_strlit("7");
        reveal_strlit("8");
        reveal_strlit("9");
    }
    let part = match d {
        0 => "0",
        1 => "1",
        2 => "2",
        3 => "3",
        4 => "4",
        5 => "5",
        6 => "6",
        7 => "7",
        8 => "8",
        _ => "9",
    };
    s.append(part);
    proof {
        assert(s@ =~= old(s)@ + seq![digit_char(d as int)]);
    }
}

/// Append one lower-case hexadecimal digit character.
pub fn push_hex_digit(s: &mut String, d: u16)
    requires
        d < 16,
    ensures
        final(s)@ == old(s)@ + seq![hex_char(d as int)],
{
    if d < 10 {
        push_digit(s, d as u8);
    } else {
        proof {
            reveal_strlit("a");
            reveal_strlit("b");
            reveal_strlit("c");
            reveal_strlit("d");
            reveal_strlit("e");
            reveal_strlit("f");
        }
        let part = match d {
            10 => "a",
            11 => "b",
            12 => "c",
            13 => "d",
            14 => "e",
            _ => "f",
        };
        s.append(part);
        proof {
            assert(s@ =~= old(s)@ + seq![hex_char(d as int)]);
        }
    }
}

/// Append the decimal digits of an octet, most significant first.
pub fn push_decimal(s: &mut String, n: u8)
    ensures
        final(s)@ == old(s)@ + dec_digits(n as int),
{
    if n >= 100 {
        push_digit(s, n / 100);
        push_digit(s, (n / 10) % 10);
        push_digit(s, n % 10);
        proof {
            let m = n as int;
            assert(m / 10 / 10 == m / 100) by (nonlinear_arith);
            assert(m / 10 >= 10) by (nonlinear_arith)
                requires m >= 100;
            assert(m / 100 <= 9) by (nonlinear_arith)
                requires m <= 255;
            assert(dec_digits(m) == dec_digits(m / 10).push(digit_char(m % 10)));
            assert(dec_digits(m / 10) == dec_digits(m / 10 / 10).push(digit_char((m / 10) % 10)));
            assert(dec_digits(m / 100) =~= seq![digit_char(m / 100)]);
            assert(s@ =~= old(s)@ + dec_digits(n as int));
        }
    } else if n >= 10 {
        push_digit(s, n / 10);
        push_digit(s, n % 10);
        proof {
            let m = n as int;
            assert(dec_digits(m) == dec_digits(m / 10).push(digit_char(m % 10)));
            assert(dec_digits(m / 10) =~= seq![digit_char(m / 10)]);
            assert(s@ =~= old(s)@ + dec_digits(n as int));
        }
    } else {
        push_digit(s, n);
        proof {
            assert(s@ =~= old(s)@ + dec_digits(n as int));
        }
    }
}

/// Append the lower-case hexadecimal digits of a 16-bit group, most
/// significant first.
pub fn push_hex(s: &mut String, n: u16)
    ensures
        final(s)@ == old(s)@ + hex_digits(n as int),
{
    if n >= 4096 {
        push_hex_digit(s, n / 4096);
        push_hex_digit(s, (n / 256) % 16);
        push_hex_digit(s, (n / 16) % 16);
        push_hex_digit(s, n % 16);
        proof {
            let m = n as int;
            assert(m / 16 / 16 == m / 256) by (nonlinear_arith);
            assert(m / 16 / 16 / 16 == m / 4096) by (nonlinear_arith);
            assert(m / 16 >= 16 && m / 256 >= 16) by (nonlinear_arith)
                requires m >= 4096;
            assert(m / 4096 <= 15) by (nonlinear_arith)
                requires m <= 65535;
            assert(hex_digits(m) == hex_digits(m / 16).push(hex_char(m % 16)));
            assert(hex_digits(m / 16) == hex_digits(m / 16 / 16).push(hex_char((m / 16) % 16)));
            assert(hex_digits(m / 256) == hex_digits(m / 256 / 16).push(hex_char((m / 256) % 16)));
            assert(m / 256 / 16 == m / 4096) by (nonlinear_arith);
            assert(hex_digits(m / 4096) =~= seq![hex_char(m / 4096)]);
            assert(s@ =~= old(s)@ + hex_digits(n as int));
        }
    } else if n >= 256 {
        push_hex_digit(s, n / 256);
        push_hex_digit(s, (n / 16) % 16);
        push_hex_digit(s, n % 16);
        proof {
            let m = n as int;
            assert(m / 16 / 16 == m / 256) by (nonlinear_arith);
            assert(m / 16 >= 16) by (nonlinear_arith)
                requires m >= 256;
            assert(m / 256 <= 15) by (nonlinear_arith)
                requires m < 4096;
            assert(hex_digits(m) == hex_digits(m / 16).push(hex_char(m % 16)));
            assert(hex_digits(m / 16) == hex_digits(m / 16 / 16).push(hex_char((m / 16) % 16)));
            assert(hex_digits(m / 256) =~= seq![hex_char(m / 256)]);
            assert(s@ =~= old(s)@ + hex_digits(n as int));
        }
    } else if n >= 16 {
        push_hex_digit(s, n / 16);
        push_hex_digit(s, n % 16);
        proof {
            let m = n as int;
            assert(hex_digits(m) == hex_digits(m / 16).push(hex_char(m % 16)));
            assert(hex_digits(m / 16) =~= seq![hex_char(m / 16)]);
            assert(s@ =~= old(s)@ + hex_digits(n as int));
        }
    } else {
        push_hex_digit(s, n);
        proof {
            assert(s@ =~= old(s)@ + hex_digits(n as int));
        }
    }
}

} // verus!
