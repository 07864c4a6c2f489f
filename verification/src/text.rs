//! Character classification and string building from `std`.

use vstd::prelude::*;

verus! {

/// The Unicode `White_Space` characters, which `char::is_whitespace`
/// documents as its meaning: tab to carriage return, space, next line,
/// no-break space, ogham space mark, the spaces U+2000 to U+200A, line and
/// paragraph separators, narrow no-break space, medium mathematical space
/// and ideographic space.
pub open spec fn char_is_whitespace(c: char) -> bool {
    let u = c as u32;
    ||| 0x09 <= u <= 0x0d
    ||| u == 0x20
    ||| u == 0x85
    ||| u == 0xa0
    ||| u == 0x1680
    ||| 0x2000 <= u <= 0x200a
    ||| u == 0x2028
    ||| u == 0x2029
    ||| u == 0x202f
    ||| u == 0x205f
    ||| u == 0x3000
}

/// Whether a character is Unicode `White_Space` (what `char::is_whitespace`
/// tests).
pub(crate) fn is_whitespace(c: char) -> (r: bool)
    ensures
        r == char_is_whitespace(c),
{
    let u = c as u32;
    (0x09 <= u && u <= 0x0d) || u == 0x20 || u == 0x85 || u == 0xa0 || u == 0x1680 || (0x2000 <= u && u <= 0x200a)
        || u == 0x2028 || u == 0x2029 || u == 0x202f || u == 0x205f || u == 0x3000
}

pub open spec fn is_ascii_letter(c: char) -> bool {
    ('a' <= c && c <= 'z') || ('A' <= c && c <= 'Z')
}

pub open spec fn is_ascii_digit_char(c: char) -> bool {
    '0' <= c && c <= '9'
}

/// Name for `char::is_alphabetic` on a character outside ASCII.
pub uninterp spec fn unicode_alphabetic(c: char) -> bool;

/// Name for `char::is_alphanumeric` on a character outside ASCII.
pub uninterp spec fn unicode_alphanumeric(c: char) -> bool;

/// Unicode `Alphabetic`: on ASCII exactly the letters.
pub open spec fn char_is_alphabetic(c: char) -> bool {
    if (c as u32) < 0x80 {
        is_ascii_letter(c)
    } else {
        unicode_alphabetic(c)
    }
}

/// Unicode `Alphabetic` or `Numeric`: on ASCII exactly letters and digits.
pub open spec fn char_is_alphanumeric(c: char) -> bool {
    if (c as u32) < 0x80 {
        is_ascii_letter(c) || is_ascii_digit_char(c)
    } else {
        unicode_alphanumeric(c)
    }
}

/// `char::is_alphabetic` (Unicode `Alphabetic`): on ASCII exactly the
/// letters `a`..`z` and `A`..`Z`; every alphabetic character is
/// alphanumeric, as `char::is_alphanumeric` documents.
#[verifier::external_body]
pub(crate) fn is_alphabetic(c: char) -> (r: bool)
    ensures
        r == char_is_alphabetic(c),
        (c as u32) >= 0x80 ==> r == unicode_alphabetic(c),
        r ==> char_is_alphanumeric(c),
{
    c.is_alphabetic()
}

/// `char::is_alphanumeric` (Unicode `Alphabetic` or `Numeric`): on ASCII
/// exactly the letters and the digits `0`..`9`.
#[verifier::external_body]
pub(crate) fn is_alphanumeric(c: char) -> (r: bool)
    ensures
        r == char_is_alphanumeric(c),
        (c as u32) >= 0x80 ==> r == unicode_alphanumeric(c),
{
    c.is_alphanumeric()
}

/// The characters of a string slice, in order (`str::chars`).
#[verifier::external_body]
pub(crate) fn chars_of(s: &str) -> (r: Vec<char>)
    ensures
        r@ == s@,
{
    s.chars().collect()
}

/// A string holding the characters `v[start..end]` (`String::from_iter`).
#[verifier::external_body]
pub(crate) fn string_of_chars(v: &Vec<char>, start: usize, end: usize) -> (r: String)
    requires
        start <= end <= v.len(),
    ensures
        r@ == v@.subrange(start as int, end as int),
{
    v[start..end].iter().collect()
}

/// A one-character string (`char::to_string`).
#[verifier::external_body]
pub(crate) fn string_of_char(c: char) -> (r: String)
    ensures
        r@ == seq![c],
{
    c.to_string()
}

/// Name for the `Debug` text of a `str` (quoted and escaped).
pub uninterp spec fn str_debug_text(s: Seq<char>) -> Seq<char>;

/// The `Debug` text of a string slice (`format!("{:?}", s)`).
#[verifier::external_body]
pub(crate) fn debug_text(s: &str) -> (r: String)
    ensures
        r@ == str_debug_text(s@),
{
    format!("{:?}", s)
}

/// Whether two string slices hold the same characters (`str == str`).
pub(crate) fn str_equal(a: &str, b: &str) -> (r: bool)
    ensures
        r == (a@ == b@),
{
    let ac = chars_of(a);
    let bc = chars_of(b);
    if ac.len() != bc.len() {
        return false;
    }
    let mut i: usize = 0;
    while i < ac.len()
        invariant
            ac@ == a@,
            bc@ == b@,
            ac.len() == bc.len(),
            i <= ac.len(),
            forall|k: int| 0 <= k < i ==> ac@[k] == bc@[k],
        decreases ac.len() - i,
    {
        if ac[i] != bc[i] {
            return false;
        }
        i += 1;
    }
    proof {
        assert(ac@ =~= bc@);
    }
    true
}

} // verus!
