//! Character-level helpers: case folding, decimal numerals and string building.
use vstd::prelude::*;

verus! {

/// ASCII lower case of one character; every other character is kept.
pub open spec fn lower_char(c: char) -> char {
    if 'A' <= c && c <= 'Z' {
        ((c as u32) + 32) as char
    } else {
        c
    }
}

/// The normal form of a description: its ASCII letters in lower case.
pub open spec fn normalized(s: Seq<char>) -> Seq<char> {
    s.map_values(|c: char| lower_char(c))
}

/// Normalizing twice is normalizing once.
pub proof fn lemma_normalized_idempotent(s: Seq<char>)
    ensures
        normalized(normalized(s)) == normalized(s),
{
    assert(normalized(normalized(s)) =~= normalized(s));
}

/// The ASCII lower case of one character.
fn lower(c: char) -> (r: char)
    ensures
        r == lower_char(c),
{
    if 'A' <= c && c <= 'Z' {
        let b: u8 = c as u8 + 32;
        b as char
    } else {
        c
    }
}

/// The normal form of `s`: its ASCII letters in lower case.
pub(crate) fn normalize(s: &str) -> (r: String)
    ensures
        r@ == normalized(s@),
{
    let chars = chars_of(s);
    let mut r = String::new();
    let mut k: usize = 0;
    while k < chars.len()
        invariant
            k <= chars.len(),
            chars@ == s@,
            r@ == normalized(s@.take(k as int)),
        decreases chars.len() - k,
    {
        let c = lower(chars[k]);
        push_char(&mut r, c);
        k = k + 1;
        assert(r@ =~= normalized(s@.take(k as int)));
    }
    assert(s@.take(k as int) =~= s@);
    r
}

/// Relies on String::push: appends one character.
#[verifier::external_body]
pub(crate) fn push_char(s: &mut String, c: char)
    ensures
        final(s)@ == old(s)@.push(c),
{
    s.push(c)
}

/// The characters of a string, in order.
pub(crate) fn chars_of(s: &str) -> (r: Vec<char>)
    ensures
        r@ == s@,
{
    let mut r: Vec<char> = Vec::new();
    for c in it: s.chars()
        invariant
            r@ == it.seq().take(it.index() as int),
    {
        r.push(c);
    }
    r
}

/// The character of the decimal digit `d`.
pub(crate) fn digit_char(d: u32) -> (c: char)
    requires d < 10,
    ensures c as u32 == '0' as u32 + d,
{
    let b: u8 = 48u8 + d as u8;
    b as char
}

/// The value of the decimal digit `c`.
pub(crate) fn char_digit(c: char) -> (d: u32)
    requires '0' <= c <= '9',
    ensures d == c as u32 - '0' as u32,
{
    c as u32 - '0' as u32
}

} // verus!
