//! Verified text helpers used at the serialization boundary.
//!
//! `final_touches_xml` undoes the ampersand escaping that the XML serializer
//! applies; `escape_markup` and `unescape_markup` move angle brackets in and
//! out of entity form for bodies embedded in the document tree; the decimal
//! helpers render page numbers for paginated request URLs.

use vstd::prelude::*;

verus! {

/// `s` with every occurrence of `from`, scanned left to right and
/// non-overlapping, replaced by `to`. With an empty `from` the text is left
/// unchanged.
pub open spec fn replace_seq(s: Seq<char>, from: Seq<char>, to: Seq<char>) -> Seq<char>
    decreases s.len(),
{
    if from.len() == 0 || s.len() < from.len() {
        s
    } else if s.subrange(0, from.len() as int) == from {
        to + replace_seq(s.skip(from.len() as int), from, to)
    } else {
        seq![s[0]] + replace_seq(s.skip(1), from, to)
    }
}

/// Relies on str::replace: all matches of the pattern, found left to right
/// and non-overlapping, are replaced by the replacement string.
#[verifier::external_body]
fn str_replace(s: &str, from: &str, to: &str) -> (r: String)
    requires
        from@.len() > 0,
    ensures
        r@ == replace_seq(s@, from@, to@),
{
    s.replace(from, to)
}

/// Undo the serializer's ampersand escaping: turn every `&amp;` back into
/// `&`, so that entities inside embedded markup survive the round trip.
pub fn final_touches_xml(xml: String) -> (r: String)
    ensures
        r@ == replace_seq(xml@, "&amp;"@, "&"@),
{
    proof {
        reveal_strlit("&amp;");
    }
    str_replace(xml.as_str(), "&amp;", "&")
}

/// Escape every `<` of a converted body as `&lt;`, so the body can be stored
/// inside the document's markup.
pub fn escape_markup(body: &str) -> (r: String)
    ensures
        r@ == replace_seq(body@, "<"@, "&lt;"@),
{
    proof {
        reveal_strlit("<");
    }
    str_replace(body, "<", "&lt;")
}

/// Undo `escape_markup`: turn every `&lt;` of a stored body back into `<`.
pub fn unescape_markup(body: &str) -> (r: String)
    ensures
        r@ == replace_seq(body@, "&lt;"@, "<"@),
{
    proof {
        reveal_strlit("&lt;");
    }
    str_replace(body, "&lt;", "<")
}

/// The character of a single decimal digit.
pub open spec fn digit_char(d: nat) -> char {
    if d == 0 {
        '0'
    } else if d == 1 {
        '1'
    } else if d == 2 {
        '2'
    } else if d == 3 {
        '3'
    } else if d == 4 {
        '4'
    } else if d == 5 {
        '5'
    } else if d == 6 {
        '6'
    } else if d == 7 {
        '7'
    } else if d == 8 {
        '8'
    } else {
        '9'
    }
}

/// The decimal digits of `n`, most significant first, without leading zeros
/// (except for `n == 0` itself).
pub open spec fn dec_digits(n: nat) -> Seq<char>
    decreases n,
{
    if n < 10 {
        seq![digit_char(n)]
    } else {
        dec_digits(n / 10).push(digit_char(n % 10))
    }
}

/// The decimal rendering of a signed value: a minus sign before the digits
/// of the magnitude when `v` is negative.
pub open spec fn dec_str(v: int) -> Seq<char> {
    if v < 0 {
        seq!['-'] + dec_digits((-v) as nat)
    } else {
        dec_digits(v as nat)
    }
}

/// The one-character string of a decimal digit.
fn digit_str(d: u64) -> (r: &'static str)
    requires
        d < 10,
    ensures
        r@ == seq![digit_char(d as nat)],
{
    if d == 0 {
        proof {
            reveal_strlit("0");
        }
        "0"
    } else if d == 1 {
        proof {
            reveal_strlit("1");
        }
        "1"
    } else if d == 2 {
        proof {
            reveal_strlit("2");
        }
        "2"
    } else if d == 3 {
        proof {
            reveal_strlit("3");
        }
        "3"
    } else if d == 4 {
        proof {
            reveal_strlit("4");
        }
        "4"
    } else if d == 5 {
        proof {
            reveal_strlit("5");
        }
        "5"
    } else if d == 6 {
        proof {
            reveal_strlit("6");
        }
        "6"
    } else if d == 7 {
        proof {
            reveal_strlit("7");
        }
        "7"
    } else if d == 8 {
        proof {
            reveal_strlit("8");
        }
        "8"
    } else {
        proof {
            reveal_strlit("9");
        }
        "9"
    }
}

/// Append the decimal digits of `n` to `out`.
pub fn push_decimal(n: u64, out: &mut String)
    ensures
        final(out)@ == old(out)@ + dec_digits(n as nat),
    decreases n,
{
    if n < 10 {
        out.append(digit_str(n));
    } else {
        push_decimal(n / 10, out);
        out.append(digit_str(n % 10));
        proof {
            assert(old(out)@ + dec_digits((n / 10) as nat) + seq![
                digit_char((n % 10) as nat),
            ] =~= old(out)@ + dec_digits(n as nat));
        }
    }
}

} // verus!
