//! What the user types and sees: addresses, what a player said, progress.

use vstd::prelude::*;
use vstd::string::*;

use crate::directory::graphic;
use crate::text::{
    chars_of, debug_form, debug_text, decimal, decimal_text, hex2, hex8, padded, push_hex2,
    push_padded, push_repeated, repeated,
};

verus! {

/// The value of a hexadecimal digit.
pub open spec fn hex_digit_value(character: char) -> Option<nat> {
    if '0' <= character <= '9' {
        Some((character as nat - 0x30) as nat)
    } else if 'a' <= character <= 'f' {
        Some((character as nat - 0x57) as nat)
    } else if 'A' <= character <= 'F' {
        Some((character as nat - 0x37) as nat)
    } else {
        None
    }
}

/// The value of a row of hexadecimal digits. An empty row has the value zero.
pub open spec fn hex_value(digits: Seq<char>) -> Option<nat>
    decreases digits.len(),
{
    if digits.len() == 0 {
        Some(0)
    } else {
        match (hex_value(digits.drop_last()), hex_digit_value(digits.last())) {
            (Some(high), Some(low)) => Some(high * 16 + low),
            _ => None,
        }
    }
}

/// A number without its prefix, which can be `0x`, `0X` or `$`.
pub open spec fn without_prefix(text: Seq<char>) -> Seq<char> {
    if text.len() >= 2 && text[0] == '0' && (text[1] == 'x' || text[1] == 'X') {
        text.skip(2)
    } else if text.len() >= 1 && text[0] == '$' {
        text.skip(1)
    } else {
        text
    }
}

/// A number without its sign, which can only be `+`.
pub open spec fn without_sign(text: Seq<char>) -> Seq<char> {
    if text.len() >= 1 && text[0] == '+' {
        text.skip(1)
    } else {
        text
    }
}

/// The address that a text stands for: always a hexadecimal number of at least
/// one digit that fits in 32 bits.
pub open spec fn address_of(text: Seq<char>) -> Option<u32> {
    let digits = without_sign(without_prefix(text));
    match hex_value(digits) {
        Some(value) => if digits.len() > 0 && value <= u32::MAX {
            Some(value as u32)
        } else {
            None
        },
        None => None,
    }
}

/// What the user is told about a text that is no address.
pub open spec fn address_refusal(text: Seq<char>) -> Seq<char> {
    debug_form(text) + " is not a valid 32-bit address"@
}

/// More digits do not make a value smaller, nor valid.
proof fn lemma_hex_value_grows(digits: Seq<char>, count: int)
    requires
        0 <= count <= digits.len(),
    ensures
        hex_value(digits) matches Some(value) ==> (hex_value(digits.take(count)) matches Some(
            part,
        ) && part <= value),
    decreases digits.len() - count,
{
    if count == digits.len() {
        assert(digits.take(count) =~= digits);
    } else {
        lemma_hex_value_grows(digits, count + 1);
        assert(digits.take(count + 1).drop_last() =~= digits.take(count));
    }
}

/// The value of a hexadecimal digit.
fn digit_value(character: char) -> (value: Option<u32>)
    ensures
        value is Some == hex_digit_value(character) is Some,
        value matches Some(number) ==> number < 16 && hex_digit_value(character) == Some(
            number as nat,
        ),
{
    if '0' <= character && character <= '9' {
        Some(character as u32 - 0x30)
    } else if 'a' <= character && character <= 'f' {
        Some(character as u32 - 0x57)
    } else if 'A' <= character && character <= 'F' {
        Some(character as u32 - 0x37)
    } else {
        None
    }
}

/// The value of the hexadecimal digits from a position on, if it fits.
fn digits_value(characters: &Vec<char>, from: usize) -> (value: Option<u32>)
    requires
        from <= characters@.len(),
    ensures
        value == match hex_value(characters@.skip(from as int)) {
            Some(number) => if number <= u32::MAX {
                Some(number as u32)
            } else {
                None
            },
            None => None,
        },
{
    let ghost digits = characters@.skip(from as int);
    let mut value: u32 = 0;
    let mut index: usize = from;
    assert(digits.take(0) =~= Seq::empty());
    while index < characters.len()
        invariant
            from <= index <= characters@.len(),
            digits == characters@.skip(from as int),
            hex_value(digits.take(index - from)) == Some(value as nat),
        decreases characters@.len() - index,
    {
        proof {
            lemma_hex_value_grows(digits, index - from + 1);
            assert(digits.take(index - from + 1).drop_last() =~= digits.take(index - from));
            assert(digits.take(index - from + 1).last() == characters@[index as int]);
        }
        match digit_value(characters[index]) {
            Some(digit) => {
                if value > 0x0fff_ffff {
                    return None;
                }
                value = value * 16 + digit;
            },
            None => {
                return None;
            },
        }
        index = index + 1;
    }
    assert(digits.take(index - from) =~= digits);
    Some(value)
}

/// Reads an address. Addresses are hexadecimal: `8000`, `0x8000` and `$8000`
/// all mean 0x8000.
pub fn parse_address(text: &str) -> (result: Result<u32, String>)
    ensures
        match (result, address_of(text@)) {
            (Ok(address), Some(expected)) => address == expected,
            (Err(message), None) => message@ == address_refusal(text@),
            _ => false,
        },
{
    let characters: Vec<char> = chars_of(text);
    let mut from: usize = if characters.len() >= 2 && characters[0] == '0' && (characters[1] == 'x'
        || characters[1] == 'X') {
        2
    } else if characters.len() >= 1 && characters[0] == '$' {
        1
    } else {
        0
    };
    assert(characters@.skip(from as int) =~= without_prefix(text@));
    if from < characters.len() && characters[from] == '+' {
        from = from + 1;
    }
    assert(characters@.skip(from as int) =~= without_sign(without_prefix(text@)));
    if from < characters.len() {
        if let Some(address) = digits_value(&characters, from) {
            return Ok(address);
        }
    }
    let mut message: String = debug_text(text);
    message.append(" is not a valid 32-bit address");
    Err(message)
}

/// A byte is shown as it is if it is visible or moves the cursor.
pub open spec fn printable(byte: u8) -> bool {
    graphic(byte) || byte == 0x20 || byte == 0x0d || byte == 0x0a || byte == 0x09
}

/// How a byte is shown.
pub open spec fn shown_byte(byte: u8) -> Seq<char> {
    if printable(byte) {
        seq![byte as char]
    } else {
        "\\x"@ + hex2(byte)
    }
}

/// How bytes are shown.
pub open spec fn banner_text(bytes: Seq<u8>) -> Seq<char>
    decreases bytes.len(),
{
    if bytes.len() == 0 {
        Seq::empty()
    } else {
        banner_text(bytes.drop_last()) + shown_byte(bytes.last())
    }
}

/// Shows what a player said. Bytes that are not text are escaped.
pub fn banner(bytes: &[u8]) -> (text: String)
    ensures
        text@ == banner_text(bytes@),
{
    let mut text: String = String::new();
    let mut index: usize = 0;
    assert(bytes@.take(0) =~= Seq::empty());
    while index < bytes.len()
        invariant
            index <= bytes@.len(),
            text@ == banner_text(bytes@.take(index as int)),
        decreases bytes@.len() - index,
    {
        let byte: u8 = bytes[index];
        assert(bytes@.take(index + 1).drop_last() =~= bytes@.take(index as int));
        let ghost earlier = text@;
        if (0x21 <= byte && byte <= 0x7e) || byte == 0x20 || byte == 0x0d || byte == 0x0a || byte
            == 0x09 {
            text.push(byte as char);
            assert(text@ =~= earlier + shown_byte(byte));
        } else {
            text.append("\\x");
            push_hex2(&mut text, byte);
            assert(text@ =~= earlier + shown_byte(byte));
        }
        index = index + 1;
    }
    assert(bytes@.take(index as int) =~= bytes@);
    text
}

/// The character is a blank.
pub open spec fn blank_character(character: char) -> bool {
    character == ' ' || character == '\r' || character == '\n' || character == '\t'
}

/// A text without the blanks at its beginning.
pub open spec fn without_leading_blanks(text: Seq<char>) -> Seq<char>
    decreases text.len(),
{
    if text.len() > 0 && blank_character(text[0]) {
        without_leading_blanks(text.skip(1))
    } else {
        text
    }
}

/// A text without the blanks at its end.
pub open spec fn without_trailing_blanks(text: Seq<char>) -> Seq<char>
    decreases text.len(),
{
    if text.len() > 0 && blank_character(text.last()) {
        without_trailing_blanks(text.drop_last())
    } else {
        text
    }
}

/// A text without the blanks around it.
pub open spec fn trimmed(text: Seq<char>) -> Seq<char> {
    without_trailing_blanks(without_leading_blanks(text))
}

/// The character counts as space around a text.
fn is_blank_character(character: char) -> (result: bool)
    ensures
        result == blank_character(character),
{
    character == ' ' || character == '\r' || character == '\n' || character == '\t'
}

/// What a player said when it announced itself, without the blanks around it.
/// The download subset of the ROM says nothing.
pub fn greeting(bytes: &[u8]) -> (text: String)
    ensures
        text@ == trimmed(banner_text(bytes@)),
{
    let whole: String = banner(bytes);
    let characters: Vec<char> = chars_of(whole.as_str());
    let ghost all = characters@;
    let mut from: usize = 0;
    assert(all.skip(0) =~= all);
    while from < characters.len() && is_blank_character(characters[from])
        invariant
            from <= characters@.len(),
            all == characters@,
            without_leading_blanks(all) == without_leading_blanks(all.skip(from as int)),
        decreases characters@.len() - from,
    {
        assert(all.skip(from as int).skip(1) =~= all.skip(from + 1));
        from = from + 1;
    }
    let ghost rest = all.skip(from as int);
    let mut to: usize = characters.len();
    assert(all.subrange(from as int, to as int) =~= rest);
    while to > from && is_blank_character(characters[to - 1])
        invariant
            from <= to <= characters@.len(),
            all == characters@,
            rest == all.skip(from as int),
            without_trailing_blanks(rest) == without_trailing_blanks(
                all.subrange(from as int, to as int),
            ),
        decreases to - from,
    {
        assert(all.subrange(from as int, to as int).drop_last() =~= all.subrange(
            from as int,
            to - 1,
        ));
        to = to - 1;
    }
    let mut text: String = String::new();
    let mut index: usize = from;
    while index < to
        invariant
            from <= index <= to <= characters@.len(),
            all == characters@,
            text@ == all.subrange(from as int, index as int),
        decreases to - index,
    {
        text.push(characters[index]);
        index = index + 1;
        assert(text@ =~= all.subrange(from as int, index as int));
    }
    text
}

/// The width of the bar that shows progress.
pub const BAR_WIDTH: usize = 30;

/// The smaller of two numbers.
pub open spec fn at_most(number: nat, limit: nat) -> nat {
    if number < limit {
        number
    } else {
        limit
    }
}

/// How much of `whole` is done; all of it if there is nothing to do.
pub open spec fn share(done: nat, total: nat, whole: nat) -> nat {
    if total == 0 {
        whole
    } else {
        at_most(done, total) * whole / total
    }
}

/// The line that shows how much of a transfer is done.
pub open spec fn progress_line(label: Seq<char>, done: nat, total: nat) -> Seq<char> {
    let filled = share(done, total, BAR_WIDTH as nat);
    "\r"@ + label + " ["@ + repeated('#', filled) + repeated('-', (BAR_WIDTH - filled) as nat)
        + "] "@ + padded(decimal(share(done, total, 100)), 3) + "% ("@ + decimal(
        at_most(done, total),
    ) + "/"@ + decimal(total) + " bytes)"@
}

/// A share of a whole is not more than the whole.
proof fn lemma_share(done: nat, total: nat, whole: nat)
    ensures
        share(done, total, whole) <= whole,
        total > 0 ==> at_most(done, total) * whole <= total * whole,
{
    if total > 0 {
        let part = at_most(done, total);
        assert(part * whole <= total * whole) by (nonlinear_arith)
            requires
                part <= total,
        ;
        assert(part * whole / total <= whole) by (nonlinear_arith)
            requires
                part * whole <= total * whole,
                total > 0,
        ;
    }
}

/// How much of a small whole is done.
fn share_of(done: usize, total: usize, whole: usize) -> (result: usize)
    requires
        whole <= 100,
    ensures
        result == share(done as nat, total as nat, whole as nat),
        result <= whole,
{
    proof {
        lemma_share(done as nat, total as nat, whole as nat);
    }
    if total == 0 {
        return whole;
    }
    let part: usize = if done < total { done } else { total };
    assert(part * whole <= u64::MAX * 100) by (nonlinear_arith)
        requires
            part <= u64::MAX,
            whole <= 100,
    ;
    (part as u128 * whole as u128 / total as u128) as usize
}

/// The line that shows how much of a transfer is done. It begins with a return
/// to the start of the line, so that it replaces the one before.
pub fn progress_bar(label: &str, done: usize, total: usize) -> (line: String)
    ensures
        line@ == progress_line(label@, done as nat, total as nat),
{
    let part: usize = if done < total { done } else { total };
    let filled: usize = share_of(done, total, BAR_WIDTH);
    let percent: usize = share_of(done, total, 100);
    let mut line: String = "\r".to_owned();
    line.append(label);
    line.append(" [");
    push_repeated(&mut line, '#', filled);
    push_repeated(&mut line, '-', BAR_WIDTH - filled);
    line.append("] ");
    push_padded(&mut line, percent as u64, 3);
    line.append("% (");
    line.append(decimal_text(part as u64).as_str());
    line.append("/");
    line.append(decimal_text(total as u64).as_str());
    line.append(" bytes)");
    line
}

/// Addresses are always hexadecimal: a prefix makes no difference.
pub proof fn law_prefixes_make_no_difference(digits: Seq<char>)
    requires
        forall|i: int|
            0 <= i < digits.len() ==> hex_digit_value(#[trigger] digits[i]) is Some,
    ensures
        address_of(seq!['0', 'x'] + digits) == address_of(digits),
        address_of(seq!['0', 'X'] + digits) == address_of(digits),
        address_of(seq!['$'] + digits) == address_of(digits),
{
    assert((seq!['0', 'x'] + digits).skip(2) =~= digits);
    assert((seq!['0', 'X'] + digits).skip(2) =~= digits);
    assert((seq!['$'] + digits).skip(1) =~= digits);
    if digits.len() > 0 {
        assert(hex_digit_value(digits[0]) is Some);
    }
    if digits.len() > 1 {
        assert(hex_digit_value(digits[1]) is Some);
    }
}

/// Every address can be written: eight hexadecimal digits stand for it.
pub proof fn law_addresses_round_trip(address: u32)
    ensures
        address_of(hex8(address)) == Some(address),
{
    let digits = hex8(address);
    let bytes = seq![
        (address / 0x100_0000) as u8,
        (address / 0x1_0000 % 0x100) as u8,
        (address / 0x100 % 0x100) as u8,
        (address % 0x100) as u8,
    ];
    assert(digits.len() == 8);
    assert(digits.subrange(0, 2) =~= hex2(bytes[0]));
    assert(digits.subrange(2, 4) =~= hex2(bytes[1]));
    assert(digits.subrange(4, 6) =~= hex2(bytes[2]));
    assert(digits.subrange(6, 8) =~= hex2(bytes[3]));
    assert(digits.take(0) =~= Seq::empty());
    lemma_two_digits(digits, 0, bytes[0]);
    lemma_two_digits(digits, 2, bytes[1]);
    lemma_two_digits(digits, 4, bytes[2]);
    lemma_two_digits(digits, 6, bytes[3]);
    assert(digits.take(8) =~= digits);
    assert(hex_value(digits) == Some(
        (((bytes[0] * 0x100 + bytes[1]) * 0x100 + bytes[2]) * 0x100 + bytes[3]) as nat,
    ));
    assert(((bytes[0] * 0x100 + bytes[1]) * 0x100 + bytes[2]) * 0x100 + bytes[3] == address) by {
        let (a, b, c, d) = (bytes[0], bytes[1], bytes[2], bytes[3]);
        let (w, x, y, z) = (
            address / 0x100_0000,
            address / 0x1_0000 % 0x100,
            address / 0x100 % 0x100,
            address % 0x100,
        );
        assert(w < 0x100 && ((w * 0x100 + x) * 0x100 + y) * 0x100 + z == address) by (bit_vector)
            requires
                w == address / 0x100_0000,
                x == address / 0x1_0000 % 0x100,
                y == address / 0x100 % 0x100,
                z == address % 0x100,
        ;
    }
    assert(hex_digit_value(digits[0]) is Some);
    assert(hex_digit_value(digits[1]) is Some);
    assert(without_prefix(digits) == digits);
    assert(without_sign(digits) == digits);
}

/// Two more digits make the value that of one more byte.
proof fn lemma_two_digits(digits: Seq<char>, count: int, byte: u8)
    requires
        0 <= count <= digits.len() - 2,
        digits.subrange(count, count + 2) == hex2(byte),
        hex_value(digits.take(count)) is Some,
    ensures
        hex_value(digits.take(count + 2)) == Some(
            (hex_value(digits.take(count))->Some_0 * 0x100 + byte) as nat,
        ),
        hex_digit_value(digits[count]) is Some,
        hex_digit_value(digits[count + 1]) is Some,
{
    assert(digits[count] == hex2(byte)[0]) by {
        assert(digits.subrange(count, count + 2)[0] == digits[count]);
    }
    assert(digits[count + 1] == hex2(byte)[1]) by {
        assert(digits.subrange(count, count + 2)[1] == digits[count + 1]);
    }
    let (high, low) = (byte as int / 16, byte as int % 16);
    assert(hex_digit_value(digits[count]) == Some(high as nat));
    assert(hex_digit_value(digits[count + 1]) == Some(low as nat));
    let part = hex_value(digits.take(count))->Some_0;
    assert(digits.take(count + 1).drop_last() =~= digits.take(count));
    assert(digits.take(count + 1).last() == digits[count]);
    assert(hex_value(digits.take(count + 1)) == Some((part * 16 + high) as nat));
    assert(digits.take(count + 2).drop_last() =~= digits.take(count + 1));
    assert(digits.take(count + 2).last() == digits[count + 1]);
    assert((part * 16 + high) * 16 + low == part * 0x100 + byte);
}

} // verus!
