//! Decimal rendering of the list's values.
//!
//! The container renders as a bracketed, comma-and-space-separated line of
//! its values in head-to-tail order, and an empty list renders as empty
//! text. The spec functions here say, digit by digit, what that text is;
//! the executable functions build it and are proved to match.

use vstd::prelude::*;
use vstd::string::StringExecFns;

verus! {

/// The character of the decimal digit `d`.
pub open spec fn digit_char(d: int) -> char {
    if d == 0 {
        '0'
    } else if d == 1 {
        '1'
    } else if d == 2 {
        '2'
    } else if d == 3 {
        '3'
    } else if d == 4 {
        '4'
    } else if d == 5 {
        '5'
    } else if d == 6 {
        '6'
    } else if d == 7 {
        '7'
    } else if d == 8 {
        '8'
    } else {
        '9'
    }
}

/// The decimal digits of the non-negative `m`, most significant first.
pub open spec fn dec_digits(m: int) -> Seq<char>
    recommends
        m >= 0,
    decreases m,
{
    if m < 10 {
        seq![digit_char(m)]
    } else {
        dec_digits(m / 10).push(digit_char(m % 10))
    }
}

/// The decimal rendering of `v`: its digits, with a leading minus sign for
/// a negative value.
pub open spec fn int_chars(v: int) -> Seq<char> {
    if v < 0 {
        seq!['-'] + dec_digits(-v)
    } else {
        dec_digits(v)
    }
}

/// The values of `s` rendered in order, separated by a comma and a space.
pub open spec fn joined(s: Seq<i64>) -> Seq<char>
    decreases s.len(),
{
    if s.len() == 0 {
        Seq::empty()
    } else if s.len() == 1 {
        int_chars(s[0] as int)
    } else {
        int_chars(s[0] as int) + seq![',', ' '] + joined(s.drop_first())
    }
}

/// The rendering of the whole list: its joined values in brackets, or
/// empty text for an empty list.
pub open spec fn rendered(s: Seq<i64>) -> Seq<char> {
    if s.len() == 0 {
        Seq::empty()
    } else {
        seq!['['] + joined(s) + seq![']']
    }
}

/// The separated renderings of the values of `s` from position `i` on:
/// a comma and a space before each.
pub open spec fn tail_join(s: Seq<i64>, i: int) -> Seq<char>
    decreases s.len() - i,
{
    if i < 0 || i >= s.len() {
        Seq::empty()
    } else {
        seq![',', ' '] + int_chars(s[i] as int) + tail_join(s, i + 1)
    }
}

/// `joined` from any position is the first value's rendering followed by
/// the separated renderings of the rest: the form a rendering loop builds.
pub proof fn lemma_join_from(s: Seq<i64>, k: int)
    requires
        0 <= k < s.len(),
    ensures
        joined(s.subrange(k, s.len() as int)) == int_chars(s[k] as int) + tail_join(s, k + 1),
    decreases s.len() - k,
{
    let suffix = s.subrange(k, s.len() as int);
    if k + 1 == s.len() {
        assert(suffix.len() == 1 && suffix[0] == s[k]);
    } else {
        lemma_join_from(s, k + 1);
        assert(suffix.drop_first() =~= s.subrange(k + 1, s.len() as int));
        assert(int_chars(s[k] as int) + seq![',', ' '] + (int_chars(s[k + 1] as int) + tail_join(
            s,
            k + 2,
        )) =~= int_chars(s[k] as int) + tail_join(s, k + 1));
    }
}

/// The one-character text of the decimal digit `d`.
fn digit_str(d: u64) -> (r: &'static str)
    requires
        d < 10,
    ensures
        r@ == seq![digit_char(d as int)],
{
    proof {
        reveal_strlit("0");
        reveal_strlit("1");
        reveal_strlit("2");
        reveal_strlit("3");
        reveal_strlit("4");
        reveal_strlit("5");
        reveal_strlit("6");
        reveal_strlit("7");
        reveal_strlit("8");
        reveal_strlit("9");
    }
    let r: &'static str = if d == 0 {
        "0"
    } else if d == 1 {
        "1"
    } else if d == 2 {
        "2"
    } else if d == 3 {
        "3"
    } else if d == 4 {
        "4"
    } else if d == 5 {
        "5"
    } else if d == 6 {
        "6"
    } else if d == 7 {
        "7"
    } else if d == 8 {
        "8"
    } else {
        "9"
    };
    proof {
        assert(r@ =~= seq![digit_char(d as int)]);
    }
    r
}

/// The decimal text of `m`, built digit by digit.
pub fn u64_string(m: u64) -> (r: String)
    ensures
        r@ == dec_digits(m as int),
    decreases m,
{
    if m < 10 {
        String::from_str(digit_str(m))
    } else {
        let rec = u64_string(m / 10);
        let r = rec.concat(digit_str(m % 10));
        proof {
            assert(r@ =~= dec_digits(m as int));
        }
        r
    }
}

/// The decimal text of `v`, with a minus sign for a negative value.
pub fn i64_string(v: i64) -> (r: String)
    ensures
        r@ == int_chars(v as int),
{
    if v >= 0 {
        u64_string(v as u64)
    } else {
        let m: u64 = (-(v as i128)) as u64;
        proof {
            assert(m as int == -(v as int));
            reveal_strlit("-");
        }
        let sign = String::from_str("-");
        let digits = u64_string(m);
        let r = sign.concat(digits.as_str());
        proof {
            assert(r@ =~= int_chars(v as int));
        }
        r
    }
}

} // verus!
