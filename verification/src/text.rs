//! Character classes and string helpers used by the tokenizers.

use vstd::prelude::*;

verus! {

/// `c` is one of `A`..`Z`.
pub open spec fn spec_is_ascii_uppercase(c: char) -> bool {
    'A' <= c <= 'Z'
}

/// `c` is one of `a`..`z`.
pub open spec fn spec_is_ascii_lowercase(c: char) -> bool {
    'a' <= c <= 'z'
}

/// `c` is an ASCII letter of either case.
pub open spec fn spec_is_ascii_alphabetic(c: char) -> bool {
    spec_is_ascii_uppercase(c) || spec_is_ascii_lowercase(c)
}

/// `c` is one of `0`..`9`.
pub open spec fn spec_is_ascii_digit(c: char) -> bool {
    '0' <= c <= '9'
}

/// The numeric value of a decimal digit character.
pub open spec fn spec_digit_value(c: char) -> int
    recommends
        spec_is_ascii_digit(c),
{
    c as int - '0' as int
}

/// `c` with an ASCII uppercase letter mapped to its lowercase form and every
/// other character left alone.
pub open spec fn spec_to_ascii_lowercase(c: char) -> char {
    if spec_is_ascii_uppercase(c) {
        ((c as u8) + 32) as char
    } else {
        c
    }
}

/// Every character of `s` is a decimal digit.
pub open spec fn all_digits(s: Seq<char>) -> bool {
    forall|i: int| 0 <= i < s.len() ==> spec_is_ascii_digit(#[trigger] s[i])
}

/// `s` with every ASCII uppercase letter mapped to its lowercase form.
pub open spec fn lowercased(s: Seq<char>) -> Seq<char>
    decreases s.len(),
{
    if s.len() == 0 {
        s
    } else {
        lowercased(s.drop_last()).push(spec_to_ascii_lowercase(s.last()))
    }
}

/// [`lowercased`] keeps the length and maps character by character.
pub proof fn lemma_lowercased(s: Seq<char>)
    ensures
        lowercased(s).len() == s.len(),
        forall|i: int|
            0 <= i < s.len() ==> #[trigger] lowercased(s)[i] == spec_to_ascii_lowercase(s[i]),
    decreases s.len(),
{
    if s.len() > 0 {
        lemma_lowercased(s.drop_last());
    }
}

/// No character of `s` is an ASCII uppercase letter.
pub open spec fn has_no_ascii_uppercase(s: Seq<char>) -> bool {
    forall|i: int| 0 <= i < s.len() ==> !spec_is_ascii_uppercase(#[trigger] s[i])
}

/// Every character of `s` is an ASCII lowercase letter.
pub open spec fn is_ascii_lowercase_word(s: Seq<char>) -> bool {
    forall|i: int| 0 <= i < s.len() ==> spec_is_ascii_lowercase(#[trigger] s[i])
}

/// Whether `c` is an ASCII letter.
#[verifier::when_used_as_spec(spec_is_ascii_alphabetic)]
pub fn is_ascii_alphabetic(c: char) -> (r: bool)
    ensures
        r == spec_is_ascii_alphabetic(c),
{
    ('A' <= c && c <= 'Z') || ('a' <= c && c <= 'z')
}

/// Whether `c` is one of `0`..`9`.
#[verifier::when_used_as_spec(spec_is_ascii_digit)]
pub fn is_ascii_digit(c: char) -> (r: bool)
    ensures
        r == spec_is_ascii_digit(c),
{
    '0' <= c && c <= '9'
}

/// `c`, or its lowercase form if it is an ASCII uppercase letter.
#[verifier::when_used_as_spec(spec_to_ascii_lowercase)]
pub fn to_ascii_lowercase(c: char) -> (r: char)
    ensures
        r == spec_to_ascii_lowercase(c),
        !spec_is_ascii_uppercase(r),
        spec_is_ascii_alphabetic(c) ==> spec_is_ascii_lowercase(r),
{
    if 'A' <= c && c <= 'Z' {
        let b: u8 = c as u8;
        (b + 32) as char
    } else {
        c
    }
}

/// The value of the decimal digit `c`.
pub fn digit_value(c: char) -> (r: u8)
    requires
        spec_is_ascii_digit(c),
    ensures
        r == spec_digit_value(c),
        r <= 9,
{
    let b: u8 = c as u8;
    b - 48
}

/// Appends one character to a string.
///
/// Trusted: wraps `String::push`, which std documents as appending the given
/// character to the end of the string.
#[verifier::external_body]
pub(crate) fn push_char(s: &mut String, c: char)
    ensures
        final(s)@ == old(s)@.push(c),
{
    s.push(c);
}

/// The characters of `s`, in order.
pub fn chars_of(s: &str) -> (v: Vec<char>)
    ensures
        v@ == s@,
{
    let mut v: Vec<char> = Vec::new();
    for c in it: s.chars()
        invariant
            v@ == it.seq().take(it.index() as int),
    {
        v.push(c);
    }
    v
}

/// Whether two strings hold the same characters.
pub fn str_eq(a: &str, b: &str) -> (r: bool)
    ensures
        r == (a@ == b@),
{
    let x = a.to_owned();
    let y = b.to_owned();
    x == y
}

} // verus!
