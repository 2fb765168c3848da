use vstd::prelude::*;

verus! {

/// Relies on `str::chars`, collected into a `Vec`: the characters of the
/// string, in order.
#[verifier::external_body]
pub(crate) fn chars_of(s: &str) -> (r: Vec<char>)
    ensures
        r@ == s@,
{
    s.chars().collect()
}

/// Relies on `String`'s `FromIterator<char>`: the string made of the given
/// characters, in order.
#[verifier::external_body]
pub(crate) fn string_of(cs: &[char]) -> (r: String)
    ensures
        r@ == cs@,
{
    cs.iter().collect()
}

/// Relies on `char::from_u32`: `Some` exactly for a Unicode scalar value,
/// the character with that code.
#[verifier::external_body]
pub(crate) fn char_from_u32(x: u32) -> (r: Option<char>)
    ensures
        vstd::utf8::is_scalar(x) ==> r == Some(x as char),
        !vstd::utf8::is_scalar(x) ==> r is None,
{
    char::from_u32(x)
}

} // verus!
