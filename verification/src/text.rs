//! Conversions between Rust strings and sequences of characters.
use vstd::prelude::*;

verus! {

/// The characters of a string, in order.
pub fn chars_of(s: &str) -> (res: Vec<char>)
    ensures
        res@ == s@,
{
    broadcast use vstd::string::axiom_spec_iter;

    let mut out: Vec<char> = Vec::new();
    for c in it: s.chars()
        invariant
            it.seq() == s@,
            out@ == it.seq().take(it.index() as int),
    {
        out.push(c);
    }
    out
}

/// `String::push`: appends a character.
#[verifier::external_body]
fn push_char(s: &mut String, c: char)
    ensures
        final(s)@ == old(s)@.push(c),
{
    s.push(c);
}

/// The string of the characters, in order.
pub fn string_of(chars: &Vec<char>) -> (res: String)
    ensures
        res@ == chars@,
{
    let mut out = String::new();
    let mut i: usize = 0;
    while i < chars.len()
        invariant
            i <= chars@.len(),
            out@ == chars@.take(i as int),
        decreases chars@.len() - i,
    {
        push_char(&mut out, chars[i]);
        i += 1;
        proof {
            assert(out@ =~= chars@.take(i as int));
        }
    }
    proof {
        assert(chars@.take(chars@.len() as int) =~= chars@);
    }
    out
}

/// Unicode's numeric property of a character (general categories Nd, Nl and
/// No), as `char::is_numeric` reports it.
pub uninterp spec fn numeric_char(c: char) -> bool;

/// Whether `char::is_numeric` holds: among ASCII characters exactly the
/// digits `0` to `9`; for other characters as `numeric_char` names it.
pub open spec fn is_numeric_spec(c: char) -> bool {
    ('0' <= c <= '9') || ((c as u32) >= 128 && numeric_char(c))
}

/// `char::is_numeric`. Among ASCII characters exactly the digits `0` to `9`
/// are numeric (the other ASCII characters are not in a numeric category);
/// for other characters the result is named `numeric_char`.
#[verifier::external_body]
pub fn is_numeric(c: char) -> (res: bool)
    ensures
        res == (('0' <= c <= '9') || ((c as u32) >= 128 && numeric_char(c))),
        res == is_numeric_spec(c),
{
    c.is_numeric()
}

} // verus!
