//! Character classes used by the lexers, stated over `char` and `u8`.
use vstd::prelude::*;

verus! {

/// The ASCII whitespace characters: space, tab, line feed, form feed, carriage return.
pub open spec fn spec_ascii_whitespace(c: char) -> bool {
    c == ' ' || c == '\t' || c == '\n' || c == '\x0C' || c == '\r'
}

/// The ASCII punctuation characters `!` to `/`, `:` to `@`, `[` to `` ` `` and `{` to `~`.
pub open spec fn spec_ascii_punctuation(c: char) -> bool {
    ('!' <= c && c <= '/') || (':' <= c && c <= '@') || ('[' <= c && c <= '`') || ('{' <= c
        && c <= '~')
}

/// The ASCII decimal digits.
pub open spec fn spec_ascii_digit(c: char) -> bool {
    '0' <= c && c <= '9'
}

/// The ASCII letters and digits.
pub open spec fn spec_ascii_alphanumeric(c: char) -> bool {
    spec_ascii_digit(c) || ('a' <= c && c <= 'z') || ('A' <= c && c <= 'Z')
}

/// Whether a `char` lies in the ASCII range.
pub open spec fn spec_is_ascii(c: char) -> bool {
    (c as u32) < 128
}

/// A byte is ASCII whitespace when the character with its code is.
pub open spec fn spec_byte_whitespace(b: u8) -> bool {
    b == 0x20u8 || b == 0x09u8 || b == 0x0Au8 || b == 0x0Cu8 || b == 0x0Du8
}

/// A byte is ASCII punctuation when the character with its code is.
pub open spec fn spec_byte_punctuation(b: u8) -> bool {
    (0x21u8 <= b && b <= 0x2Fu8) || (0x3Au8 <= b && b <= 0x40u8) || (0x5Bu8 <= b && b <= 0x60u8)
        || (0x7Bu8 <= b && b <= 0x7Eu8)
}

/// Whether `char::is_numeric` holds of a character: it has one of the Unicode
/// general categories for numbers (Nd, Nl, No).
pub uninterp spec fn unicode_numeric(c: char) -> bool;

/// Whether `char::is_alphanumeric` holds of a character: it is alphabetic or numeric
/// in the sense of the Unicode Character Database.
pub uninterp spec fn unicode_alphanumeric(c: char) -> bool;

/// The characters with the Unicode `White_Space` property: tab to carriage return, space,
/// next line, no-break space, ogham space mark, en quad to hair space, the line and
/// paragraph separators, narrow no-break space, medium mathematical space and ideographic
/// space.
pub open spec fn unicode_whitespace(c: char) -> bool {
    ('\t' <= c && c <= '\r') || c == ' ' || c == '\u{85}' || c == '\u{A0}' || c == '\u{1680}' || (
    '\u{2000}' <= c && c <= '\u{200A}') || c == '\u{2028}' || c == '\u{2029}' || c == '\u{202F}'
        || c == '\u{205F}' || c == '\u{3000}'
}

/// Whether `c` is one of the five ASCII whitespace characters.
pub(crate) fn is_ascii_whitespace(c: char) -> (r: bool)
    ensures
        r == spec_ascii_whitespace(c),
{
    c == ' ' || c == '\t' || c == '\n' || c == '\x0C' || c == '\r'
}

/// Whether `c` is an ASCII punctuation character.
pub(crate) fn is_ascii_punctuation(c: char) -> (r: bool)
    ensures
        r == spec_ascii_punctuation(c),
{
    ('!' <= c && c <= '/') || (':' <= c && c <= '@') || ('[' <= c && c <= '`') || ('{' <= c
        && c <= '~')
}

/// `char::is_numeric`. The result is named `unicode_numeric`; of ASCII characters the
/// Unicode number categories hold exactly the decimal digits, and a numeric character is
/// alphanumeric (`char::is_alphanumeric` is documented as alphabetic or numeric), which is
/// claimed here.
#[verifier::external_body]
pub(crate) fn is_numeric(c: char) -> (r: bool)
    ensures
        r == unicode_numeric(c),
        spec_is_ascii(c) ==> (r <==> spec_ascii_digit(c)),
        r ==> unicode_alphanumeric(c),
{
    c.is_numeric()
}

/// `char::is_alphanumeric`. The result is named `unicode_alphanumeric`; of ASCII characters
/// the Unicode alphabetic and numeric properties hold exactly of the letters and digits, and
/// every numeric character is alphanumeric (the documentation defines the property as
/// `is_alphabetic() || is_numeric()`), which is claimed here.
#[verifier::external_body]
pub(crate) fn is_alphanumeric(c: char) -> (r: bool)
    ensures
        r == unicode_alphanumeric(c),
        spec_is_ascii(c) ==> (r <==> spec_ascii_alphanumeric(c)),
        unicode_numeric(c) ==> r,
{
    c.is_alphanumeric()
}

/// Whether `c` has the Unicode `White_Space` property.
pub(crate) fn is_whitespace(c: char) -> (r: bool)
    ensures
        r == unicode_whitespace(c),
{
    ('\t' <= c && c <= '\r') || c == ' ' || c == '\u{85}' || c == '\u{A0}' || c == '\u{1680}' || (
    '\u{2000}' <= c && c <= '\u{200A}') || c == '\u{2028}' || c == '\u{2029}' || c == '\u{202F}'
        || c == '\u{205F}' || c == '\u{3000}'
}

/// Whether `b` is the code of an ASCII whitespace character.
pub(crate) fn byte_is_ascii_whitespace(b: u8) -> (r: bool)
    ensures
        r == spec_byte_whitespace(b),
{
    b == 0x20u8 || b == 0x09u8 || b == 0x0Au8 || b == 0x0Cu8 || b == 0x0Du8
}

/// Whether `b` is the code of an ASCII punctuation character.
pub(crate) fn byte_is_ascii_punctuation(b: u8) -> (r: bool)
    ensures
        r == spec_byte_punctuation(b),
{
    (0x21u8 <= b && b <= 0x2Fu8) || (0x3Au8 <= b && b <= 0x40u8) || (0x5Bu8 <= b && b <= 0x60u8)
        || (0x7Bu8 <= b && b <= 0x7Eu8)
}

/// ASCII punctuation is every printable ASCII character, other than space, that is neither a
/// letter nor a digit; a byte is punctuation exactly when the character with its code is,
/// and whitespace exactly when that character is.
pub proof fn lemma_punctuation_is_graphic_not_alphanumeric(b: u8, c: char)
    ensures
        spec_ascii_punctuation(c) <==> ('!' <= c && c <= '~' && !spec_ascii_alphanumeric(c)),
        spec_byte_punctuation(b) <==> (0x21u8 <= b && b <= 0x7Eu8 && !(0x30u8 <= b && b <= 0x39u8)
            && !(0x41u8 <= b && b <= 0x5Au8) && !(0x61u8 <= b && b <= 0x7Au8)),
        spec_byte_punctuation(b) <==> spec_ascii_punctuation(b as char),
        spec_byte_whitespace(b) <==> spec_ascii_whitespace(b as char),
{
}

/// ASCII whitespace is the ASCII part of Unicode whitespace, without the line tabulation
/// U+000B: the characters with codes 9, 10, 12, 13 and 32.
pub proof fn lemma_ascii_whitespace_codes(c: char)
    ensures
        spec_ascii_whitespace(c) <==> (unicode_whitespace(c) && spec_is_ascii(c) && c != '\x0B'),
        spec_ascii_whitespace(c) <==> ((c as u32) == 9 || (c as u32) == 10 || (c as u32) == 12
            || (c as u32) == 13 || (c as u32) == 32),
{
}

} // verus!
