//! Character-level text helpers: substring matching (used by keyword
//! search) and decimal rendering of integers (used by the display
//! formatter).

use vstd::prelude::*;
use vstd::string::*;

verus! {

/// `needle` occurs contiguously somewhere inside `hay`. Matching is
/// case-sensitive; the empty sequence is a substring of everything.
pub open spec fn is_substring_of(needle: Seq<char>, hay: Seq<char>) -> bool {
    exists|i: int|
        0 <= i && i + needle.len() <= hay.len() && #[trigger] hay.subrange(i, i + needle.len())
            == needle
}

/// Whether `needle` matches `hay` exactly at position `at`.
fn matches_at(hay: &str, needle: &str, at: usize, hay_len: usize, needle_len: usize) -> (r: bool)
    requires
        hay_len == hay@.len(),
        needle_len == needle@.len(),
        at + needle_len <= hay_len,
    ensures
        r == (hay@.subrange(at as int, at + needle@.len()) == needle@),
{
    let ghost sub = hay@.subrange(at as int, at + needle@.len());
    let mut j: usize = 0;
    while j < needle_len
        invariant
            hay_len == hay@.len(),
            needle_len == needle@.len(),
            at + needle_len <= hay_len,
            j <= needle_len,
            sub == hay@.subrange(at as int, at + needle@.len()),
            forall|k: int| 0 <= k < j ==> hay@[at + k] == needle@[k],
        decreases needle_len - j,
    {
        let hc = hay.get_char(at + j);
        let nc = needle.get_char(j);
        if hc != nc {
            proof {
                assert(sub[j as int] == hay@[at + j]);
                assert(sub != needle@) by {
                    if sub == needle@ {
                        assert(sub[j as int] == needle@[j as int]);
                    }
                }
            }
            return false;
        }
        j += 1;
    }
    proof {
        assert(sub =~= needle@);
    }
    true
}

/// Case-sensitive substring test on strings, character by character.
pub fn contains_substring(hay: &str, needle: &str) -> (r: bool)
    ensures
        r == is_substring_of(needle@, hay@),
{
    let hay_len = hay.unicode_len();
    let needle_len = needle.unicode_len();
    if needle_len > hay_len {
        return false;
    }
    let last = hay_len - needle_len;
    let mut i: usize = 0;
    loop
        invariant
            hay_len == hay@.len(),
            needle_len == needle@.len(),
            needle_len <= hay_len,
            last == hay_len - needle_len,
            i <= last,
            forall|s: int|
                0 <= s < i ==> #[trigger] hay@.subrange(s, s + needle@.len()) != needle@,
        ensures
            forall|s: int|
                0 <= s <= last ==> #[trigger] hay@.subrange(s, s + needle@.len()) != needle@,
        decreases hay_len - needle_len - i,
    {
        if matches_at(hay, needle, i, hay_len, needle_len) {
            proof {
                assert(is_substring_of(needle@, hay@)) by {
                    assert(0 <= i as int && i as int + needle@.len() <= hay@.len()
                        && hay@.subrange(i as int, i as int + needle@.len()) == needle@);
                }
            }
            return true;
        }
        if i == last {
            break;
        }
        i += 1;
    }
    proof {
        assert(!is_substring_of(needle@, hay@)) by {
            if is_substring_of(needle@, hay@) {
                let w = choose|w: int|
                    0 <= w && w + needle@.len() <= hay@.len() && #[trigger] hay@.subrange(
                        w,
                        w + needle@.len(),
                    ) == needle@;
                assert(hay@.subrange(w, w + needle@.len()) == needle@);
                assert(0 <= w <= last);
            }
        }
    }
    false
}

/// The character for one decimal digit.
pub open spec fn spec_digit_char(d: int) -> char
    recommends
        0 <= d < 10,
{
    if d == 0 {
        '0'
    } else if d == 1 {
        '1'
    } else if d == 2 {
        '2'
    } else if d == 3 {
        '3'
    } else if d == 4 {
        '4'
    } else if d == 5 {
        '5'
    } else if d == 6 {
        '6'
    } else if d == 7 {
        '7'
    } else if d == 8 {
        '8'
    } else {
        '9'
    }
}

/// Decimal digits of a non-negative integer, most significant first,
/// without leading zeros (zero itself is the single digit `0`).
pub open spec fn spec_decimal_nat(n: int) -> Seq<char>
    recommends
        n >= 0,
    decreases n,
{
    if n < 10 {
        seq![spec_digit_char(n)]
    } else {
        spec_decimal_nat(n / 10).push(spec_digit_char(n % 10))
    }
}

/// Decimal rendering of a possibly negative integer: a leading minus
/// sign, then the digits of the magnitude.
pub open spec fn spec_decimal_int(n: int) -> Seq<char> {
    if n < 0 {
        seq!['-'] + spec_decimal_nat(-n)
    } else {
        spec_decimal_nat(n)
    }
}

fn digit_string(d: u64) -> (r: String)
    requires
        d < 10,
    ensures
        r@ == seq![spec_digit_char(d as int)],
{
    let s: &str = if d == 0 {
        "0"
    } else if d == 1 {
        "1"
    } else if d == 2 {
        "2"
    } else if d == 3 {
        "3"
    } else if d == 4 {
        "4"
    } else if d == 5 {
        "5"
    } else if d == 6 {
        "6"
    } else if d == 7 {
        "7"
    } else if d == 8 {
        "8"
    } else {
        "9"
    };
    proof {
        reveal_strlit("0");
        reveal_strlit("1");
        reveal_strlit("2");
        reveal_strlit("3");
        reveal_strlit("4");
        reveal_strlit("5");
        reveal_strlit("6");
        reveal_strlit("7");
        reveal_strlit("8");
        reveal_strlit("9");
        assert(s@ =~= seq![spec_digit_char(d as int)]);
    }
    String::from_str(s)
}

fn decimal_u64(n: u64) -> (r: String)
    ensures
        r@ == spec_decimal_nat(n as int),
    decreases n,
{
    if n < 10 {
        digit_string(n)
    } else {
        let mut s = decimal_u64(n / 10);
        let d = digit_string(n % 10);
        s.append(d.as_str());
        proof {
            assert(s@ =~= spec_decimal_nat(n as int / 10).push(
                spec_digit_char(n as int % 10),
            ));
        }
        s
    }
}

/// Decimal rendering of a signed 64-bit integer.
pub fn decimal_i64(n: i64) -> (r: String)
    ensures
        r@ == spec_decimal_int(n as int),
{
    if n >= 0 {
        decimal_u64(n as u64)
    } else {
        let wide: i128 = n as i128;
        let mag: u64 = (-wide) as u64;
        let mut s = String::from_str("-");
        let d = decimal_u64(mag);
        s.append(d.as_str());
        proof {
            reveal_strlit("-");
            assert(s@ =~= seq!['-'] + spec_decimal_nat(-(n as int)));
        }
        s
    }
}

} // verus!
