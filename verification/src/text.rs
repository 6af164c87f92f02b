//! Text for the user: hexadecimal and decimal numbers, padding, and the few
//! string operations that the rest of the library is built from.

use vstd::prelude::*;
use vstd::string::*;

verus! {

/// `String::push` of the standard library: the character is appended.
pub assume_specification[ String::push ](text: &mut String, character: char)
    ensures
        final(text)@ == old(text)@.push(character),
;

/// What the debug format of a text is: the text in double quotes, with the
/// escapes that the standard library chooses.
pub uninterp spec fn debug_form(text: Seq<char>) -> Seq<char>;

/// The debug format of a `str` in the standard library. The contract names the
/// result and claims nothing else of it.
#[verifier::external_body]
pub(crate) fn debug_text(text: &str) -> (quoted: String)
    ensures
        quoted@ == debug_form(text@),
{
    format!("{:?}", text)
}

/// What becomes of bytes that are read as UTF-8 with every invalid part
/// replaced.
pub uninterp spec fn lossy_text(bytes: Seq<u8>) -> Seq<char>;

/// `String::from_utf8_lossy` of the standard library. The contract names the
/// result, and says that valid UTF-8 is decoded as it stands.
#[verifier::external_body]
pub(crate) fn text_from_bytes(bytes: &[u8]) -> (text: String)
    ensures
        text@ == lossy_text(bytes@),
        vstd::utf8::valid_utf8(bytes@) ==> text@ == vstd::utf8::decode_utf8(bytes@),
{
    String::from_utf8_lossy(bytes).into_owned()
}

/// The upper-case hexadecimal digit for a number below 16.
pub open spec fn hex_digit(number: int) -> char {
    if number < 10 {
        (0x30 + number) as char
    } else {
        (0x37 + number) as char
    }
}

/// A byte as two upper-case hexadecimal digits.
pub open spec fn hex2(byte: u8) -> Seq<char> {
    seq![hex_digit(byte as int / 16), hex_digit(byte as int % 16)]
}

/// A 32-bit number as eight upper-case hexadecimal digits.
pub open spec fn hex8(number: u32) -> Seq<char> {
    hex2((number / 0x100_0000) as u8) + hex2((number / 0x1_0000 % 0x100) as u8) + hex2(
        (number / 0x100 % 0x100) as u8,
    ) + hex2((number % 0x100) as u8)
}

/// A number in decimal digits, without leading zeros.
pub open spec fn decimal(number: nat) -> Seq<char>
    decreases number,
{
    if number < 10 {
        seq![(0x30 + number) as char]
    } else {
        decimal(number / 10).push((0x30 + number % 10) as char)
    }
}

/// The same character, `count` times.
pub open spec fn repeated(character: char, count: nat) -> Seq<char> {
    Seq::new(count, |i: int| character)
}

/// A text with spaces in front of it, so that it is at least `width` long.
pub open spec fn padded(text: Seq<char>, width: nat) -> Seq<char> {
    if text.len() < width {
        repeated(' ', (width - text.len()) as nat) + text
    } else {
        text
    }
}

/// The characters of a text.
pub(crate) fn chars_of(text: &str) -> (characters: Vec<char>)
    ensures
        characters@ == text@,
{
    let mut characters: Vec<char> = Vec::new();
    for character in it: text.chars()
        invariant
            it.seq() == text@,
            characters@ == text@.take(it.index() as int),
    {
        characters.push(character);
    }
    assert(text@.take(text@.len() as int) =~= text@);
    characters
}

/// Appends a byte as two hexadecimal digits.
pub(crate) fn push_hex2(text: &mut String, byte: u8)
    ensures
        final(text)@ == old(text)@ + hex2(byte),
{
    let high: u8 = byte / 16;
    let low: u8 = byte % 16;
    let first: char = if high < 10 { (0x30 + high) as char } else { (0x37 + high) as char };
    let second: char = if low < 10 { (0x30 + low) as char } else { (0x37 + low) as char };
    text.push(first);
    text.push(second);
    assert(text@ =~= old(text)@ + hex2(byte));
}

/// Appends a 32-bit number as eight hexadecimal digits.
pub(crate) fn push_hex8(text: &mut String, number: u32)
    ensures
        final(text)@ == old(text)@ + hex8(number),
{
    push_hex2(text, (number / 0x100_0000) as u8);
    push_hex2(text, (number / 0x1_0000 % 0x100) as u8);
    push_hex2(text, (number / 0x100 % 0x100) as u8);
    push_hex2(text, (number % 0x100) as u8);
    assert(text@ =~= old(text)@ + hex8(number));
}

/// A number in decimal digits.
pub(crate) fn decimal_text(number: u64) -> (text: String)
    ensures
        text@ == decimal(number as nat),
    decreases number,
{
    let mut text: String = if number < 10 { String::new() } else { decimal_text(number / 10) };
    text.push((0x30 + (number % 10) as u8) as char);
    assert(text@ =~= decimal(number as nat));
    text
}

/// Appends a character a number of times.
pub(crate) fn push_repeated(text: &mut String, character: char, count: usize)
    ensures
        final(text)@ == old(text)@ + repeated(character, count as nat),
{
    let mut done: usize = 0;
    while done < count
        invariant
            done <= count,
            text@ == old(text)@ + repeated(character, done as nat),
        decreases count - done,
    {
        text.push(character);
        done = done + 1;
        assert(text@ =~= old(text)@ + repeated(character, done as nat));
    }
    assert(text@ =~= old(text)@ + repeated(character, count as nat));
}

/// Appends a number in decimal digits, padded with spaces.
pub(crate) fn push_padded(text: &mut String, number: u64, width: usize)
    ensures
        final(text)@ == old(text)@ + padded(decimal(number as nat), width as nat),
{
    let digits: String = decimal_text(number);
    let length: usize = digits.as_str().unicode_len();
    if length < width {
        push_repeated(text, ' ', width - length);
    }
    text.append(digits.as_str());
    assert(text@ =~= old(text)@ + padded(decimal(number as nat), width as nat));
}

} // verus!
