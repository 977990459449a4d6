//! Characters and strings: what the parser needs of the standard library.

use crate::grammar::{
    anonymous_name, decimal, digit_char, is_bit_char, is_layout_char, is_name_char,
};
use std::str::Chars;
use vstd::prelude::*;

verus! {

/// `Clone::clone` of `std::str::Chars`. The copy is the same iterator as the
/// one it was made from: it yields the characters that this one has yet to
/// yield.
pub assume_specification<'a>[ <Chars<'a> as Clone>::clone ](chars: &Chars<'a>) -> (copy: Chars<'a>)
    ensures
        copy == *chars,
;

/// `String::push`. The character is appended to the string.
pub assume_specification[ String::push ](text: &mut String, c: char)
    ensures
        final(text)@ == old(text)@.push(c),
;

/// Whether `c` is one of `0`, `1` and `x`.
pub fn is_bit(c: char) -> (b: bool)
    ensures
        b == is_bit_char(c),
{
    c == '0' || c == '1' || c == 'x'
}

/// Whether `c` is a space or an underscore.
pub fn is_layout(c: char) -> (b: bool)
    ensures
        b == is_layout_char(c),
{
    c == ' ' || c == '_'
}

/// Whether `c` is an ASCII letter, an ASCII digit or an underscore.
pub fn is_name_character(c: char) -> (b: bool)
    ensures
        b == is_name_char(c),
{
    ('0' <= c && c <= '9') || ('a' <= c && c <= 'z') || ('A' <= c && c <= 'Z') || c == '_'
}

/// The decimal digit `d` as a character.
fn digit(d: usize) -> (c: char)
    requires
        d < 10,
    ensures
        c == digit_char(d as nat),
{
    let code: u8 = 48u8 + d as u8;
    code as char
}

/// Appends the decimal numeral of `n` to `text`.
pub fn push_decimal(text: &mut String, n: usize)
    ensures
        final(text)@ == old(text)@ + decimal(n as nat),
    decreases n,
{
    if n >= 10 {
        push_decimal(text, n / 10);
    }
    text.push(digit(n % 10));
    proof {
        if n >= 10 {
            assert(final(text)@ =~= old(text)@ + decimal((n / 10) as nat).push(
                digit_char((n % 10) as nat),
            ));
        } else {
            assert(final(text)@ =~= old(text)@ + seq![digit_char(n as nat)]);
        }
    }
}

/// The name of the `n`-th capture that was written without one.
pub fn anonymous(n: usize) -> (name: String)
    ensures
        name@ == anonymous_name(n as nat),
{
    let mut name = String::new();
    name.push('_');
    push_decimal(&mut name, n);
    proof {
        assert(name@ =~= seq!['_'] + decimal(n as nat));
    }
    name
}

} // verus!
