//! The ASCII categories of characters, and the width of a character in
//! UTF-8.

use vstd::prelude::*;

verus! {

/// `'0'..='9'`.
pub open spec fn is_digit(c: char) -> bool {
    '0' <= c <= '9'
}

/// `'a'..='z'`.
pub open spec fn is_lower(c: char) -> bool {
    'a' <= c <= 'z'
}

/// `'A'..='Z'`.
pub open spec fn is_upper(c: char) -> bool {
    'A' <= c <= 'Z'
}

/// An ASCII letter of either case.
pub open spec fn is_alpha(c: char) -> bool {
    is_lower(c) || is_upper(c)
}

/// An ASCII letter or digit.
pub open spec fn is_alnum(c: char) -> bool {
    is_alpha(c) || is_digit(c)
}

/// Space, horizontal tab, line feed, form feed or carriage return.
pub open spec fn is_space(c: char) -> bool {
    c == ' ' || c == '\t' || c == '\n' || c == '\u{c}' || c == '\r'
}

/// One of the four blocks of ASCII punctuation:
/// `! " # $ % & ' ( ) * + , - . /`, `: ; < = > ? @`,
/// `` [ \ ] ^ _ ` `` and `{ | } ~`.
pub open spec fn is_punct(c: char) -> bool {
    ('!' <= c <= '/') || (':' <= c <= '@') || ('[' <= c <= '`') || ('{' <= c <= '~')
}

/// The number of bytes that `c` takes in UTF-8.
pub open spec fn utf8_width(c: char) -> nat {
    if c <= '\u{7f}' {
        1
    } else if c <= '\u{7ff}' {
        2
    } else if c <= '\u{ffff}' {
        3
    } else {
        4
    }
}

/// Every character is a Unicode scalar value: it lies below the surrogates
/// or above them, and no higher than `U+10FFFF`.
pub proof fn lemma_char_is_scalar(c: char)
    ensures
        ('\0' <= c <= '\u{d7ff}') || ('\u{e000}' <= c <= '\u{10ffff}'),
{
}

/// Whether `c` is a decimal digit.
pub fn char_is_digit(c: char) -> (b: bool)
    ensures
        b == is_digit(c),
{
    '0' <= c && c <= '9'
}

/// Whether `c` is a small ASCII letter.
pub fn char_is_lower(c: char) -> (b: bool)
    ensures
        b == is_lower(c),
{
    'a' <= c && c <= 'z'
}

/// Whether `c` is a capital ASCII letter.
pub fn char_is_upper(c: char) -> (b: bool)
    ensures
        b == is_upper(c),
{
    'A' <= c && c <= 'Z'
}

/// Whether `c` is an ASCII letter.
pub fn char_is_alpha(c: char) -> (b: bool)
    ensures
        b == is_alpha(c),
{
    char_is_lower(c) || char_is_upper(c)
}

/// Whether `c` is an ASCII letter or digit.
pub fn char_is_alnum(c: char) -> (b: bool)
    ensures
        b == is_alnum(c),
{
    char_is_alpha(c) || char_is_digit(c)
}

/// Whether `c` is ASCII white space.
pub fn char_is_space(c: char) -> (b: bool)
    ensures
        b == is_space(c),
{
    c == ' ' || c == '\t' || c == '\n' || c == '\u{c}' || c == '\r'
}

/// Whether `c` is an ASCII punctuation character.
pub fn char_is_punct(c: char) -> (b: bool)
    ensures
        b == is_punct(c),
{
    ('!' <= c && c <= '/') || (':' <= c && c <= '@') || ('[' <= c && c <= '`') || ('{' <= c
        && c <= '~')
}

/// The number of bytes that `c` takes in UTF-8.
pub fn char_width(c: char) -> (n: usize)
    ensures
        n == utf8_width(c),
        1 <= n <= 4,
{
    if c <= '\u{7f}' {
        1
    } else if c <= '\u{7ff}' {
        2
    } else if c <= '\u{ffff}' {
        3
    } else {
        4
    }
}

} // verus!
