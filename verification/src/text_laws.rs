//! What the texts for the user say, in terms of the numbers and bytes they are
//! made from.

use vstd::prelude::*;

use crate::console::{
    address_of, address_refusal, at_most, banner_text, blank_character, hex_value, progress_line,
    share, shown_byte, trimmed, without_leading_blanks, without_prefix, without_sign,
    without_trailing_blanks,
};
use crate::error::{failure_text, Failure};
use crate::os9::os9_failure_text;
use crate::service::{call_line, sized_call_line, Os9Failure};
use crate::stub::{hex_list, uart_line};
use crate::text::{debug_form, decimal, hex2, hex8, padded, repeated};

verus! {

/// The number that a digit stands for, in any base up to sixteen.
pub open spec fn digit(character: char) -> int {
    if '0' <= character <= '9' {
        character as int - '0' as int
    } else if 'A' <= character <= 'F' {
        character as int - 'A' as int + 10
    } else if 'a' <= character <= 'f' {
        character as int - 'a' as int + 10
    } else {
        -1
    }
}

/// The number that a row of digits stands for.
pub open spec fn positional(digits: Seq<char>, base: int) -> int
    decreases digits.len(),
{
    if digits.len() == 0 {
        0
    } else {
        positional(digits.drop_last(), base) * base + digit(digits.last())
    }
}

/// A decimal number stands for the number it was made from. It has no leading
/// zeros.
pub proof fn law_decimals_stand_for_their_number(number: nat)
    ensures
        positional(decimal(number), 10) == number,
        forall|i: int|
            0 <= i < decimal(number).len() ==> '0' <= #[trigger] decimal(number)[i] <= '9',
        decimal(number).len() > 0,
        decimal(number).len() > 1 ==> decimal(number)[0] != '0',
        number > 0 ==> decimal(number)[0] != '0',
    decreases number,
{
    let digits = decimal(number);
    if number < 10 {
        assert(digits.drop_last() =~= Seq::empty());
        assert(positional(Seq::empty(), 10) == 0);
        assert(digit(digits.last()) == number);
    } else {
        law_decimals_stand_for_their_number(number / 10);
        assert(digits.drop_last() =~= decimal(number / 10));
        assert(digit(digits.last()) == number % 10);
        assert(digits[0] == decimal(number / 10)[0]);
    }
}

/// A hexadecimal number stands for the number it was made from, in digits of which
/// the letters are capitals: two of them for a byte, eight for a 32-bit number.
pub proof fn law_hexadecimals_stand_for_their_number(byte: u8, number: u32)
    ensures
        hex2(byte).len() == 2,
        positional(hex2(byte), 16) == byte,
        forall|i: int|
            0 <= i < 2 ==> '0' <= #[trigger] hex2(byte)[i] <= '9' || 'A' <= hex2(byte)[i] <= 'F',
        hex8(number).len() == 8,
        positional(hex8(number), 16) == number,
        forall|i: int|
            0 <= i < 8 ==> '0' <= #[trigger] hex8(number)[i] <= '9' || 'A' <= hex8(number)[i]
                <= 'F',
{
    let a = (number / 0x100_0000) as u8;
    let b = (number / 0x1_0000 % 0x100) as u8;
    let c = (number / 0x100 % 0x100) as u8;
    let d = (number % 0x100) as u8;
    lemma_two_more(Seq::empty(), byte);
    assert(Seq::<char>::empty() + hex2(byte) =~= hex2(byte));
    lemma_two_more(Seq::empty(), a);
    assert(Seq::<char>::empty() + hex2(a) =~= hex2(a));
    lemma_two_more(hex2(a), b);
    lemma_two_more(hex2(a) + hex2(b), c);
    lemma_two_more(hex2(a) + hex2(b) + hex2(c), d);
    assert(hex8(number) =~= hex2(a) + hex2(b) + hex2(c) + hex2(d));
    let (w, x, y, z) = (
        number / 0x100_0000,
        number / 0x1_0000 % 0x100,
        number / 0x100 % 0x100,
        number % 0x100,
    );
    assert(w < 0x100 && ((w * 0x100 + x) * 0x100 + y) * 0x100 + z == number) by (bit_vector)
        requires
            w == number / 0x100_0000,
            x == number / 0x1_0000 % 0x100,
            y == number / 0x100 % 0x100,
            z == number % 0x100,
    ;
}

/// A byte in hexadecimal behind a row of digits.
proof fn lemma_two_more(digits: Seq<char>, byte: u8)
    ensures
        positional(digits + hex2(byte), 16) == positional(digits, 16) * 0x100 + byte,
{
    let all = digits + hex2(byte);
    assert(all.drop_last().drop_last() =~= digits);
    let high = byte as int / 16;
    let low = byte as int % 16;
    assert(digit(hex2(byte)[0]) == high);
    assert(digit(hex2(byte)[1]) == low);
    assert(all.drop_last().last() == hex2(byte)[0]);
    assert(positional(all.drop_last(), 16) == positional(digits, 16) * 16 + high);
}

/// A padded text ends with the text; in front of it are spaces, and only as many
/// as the width asks for.
pub proof fn law_texts_are_padded(text: Seq<char>, width: nat)
    ensures
        ({
            let result = padded(text, width);
            &&& result.len() == if text.len() < width {
                width
            } else {
                text.len()
            }
            &&& result.skip(result.len() - text.len()) == text
            &&& forall|i: int| 0 <= i < result.len() - text.len() ==> #[trigger] result[i] == ' '
        }),
{
    let result = padded(text, width);
    assert(result.skip(result.len() - text.len()) =~= text);
}

/// A text is an address: perhaps `0x`, `0X` or `$`, perhaps a plus sign, and at
/// least one hexadecimal digit, in letters of either case.
pub open spec fn writes_address(
    text: Seq<char>,
    prefix: Seq<char>,
    sign: Seq<char>,
    digits: Seq<char>,
) -> bool {
    &&& text == prefix + sign + digits
    &&& prefix.len() == 0 || prefix == seq!['0', 'x'] || prefix == seq!['0', 'X'] || prefix
        == seq!['$']
    &&& sign.len() == 0 || sign == seq!['+']
    &&& digits.len() > 0
    &&& forall|i: int| 0 <= i < digits.len() ==> digit(#[trigger] digits[i]) >= 0
}

/// The value of digits is the number they stand for.
proof fn lemma_hex_value(digits: Seq<char>)
    ensures
        hex_value(digits) is Some <==> forall|i: int|
            0 <= i < digits.len() ==> digit(#[trigger] digits[i]) >= 0,
        hex_value(digits) matches Some(value) ==> value == positional(digits, 16),
    decreases digits.len(),
{
    if digits.len() > 0 {
        let front = digits.drop_last();
        lemma_hex_value(front);
        if hex_value(digits) is Some {
            assert forall|i: int| 0 <= i < digits.len() implies digit(
                #[trigger] digits[i],
            ) >= 0 by {
                if i < front.len() {
                    assert(digit(front[i]) >= 0);
                }
            }
        }
        if forall|i: int| 0 <= i < digits.len() ==> digit(#[trigger] digits[i]) >= 0 {
            assert forall|i: int| 0 <= i < front.len() implies digit(#[trigger] front[i]) >= 0 by {
                assert(digit(digits[i]) >= 0);
            }
            assert(digit(digits[digits.len() - 1]) >= 0);
        }
    }
}

/// An address is understood if it is written as one and fits in 32 bits, and it is
/// then the number that its digits stand for. Nothing else is understood.
pub proof fn law_addresses_are_hexadecimal(text: Seq<char>)
    ensures
        forall|prefix: Seq<char>, sign: Seq<char>, digits: Seq<char>| #[trigger]
            writes_address(text, prefix, sign, digits) ==> (if positional(digits, 16)
                < 0x1_0000_0000 {
                address_of(text) == Some(positional(digits, 16) as u32)
            } else {
                address_of(text) is None
            }),
        address_of(text) is Some ==> exists|
            prefix: Seq<char>,
            sign: Seq<char>,
            digits: Seq<char>,
        | #[trigger] writes_address(text, prefix, sign, digits),
{
    assert forall|prefix: Seq<char>, sign: Seq<char>, digits: Seq<char>| #[trigger]
        writes_address(text, prefix, sign, digits) implies (if positional(digits, 16)
        < 0x1_0000_0000 {
        address_of(text) == Some(positional(digits, 16) as u32)
    } else {
        address_of(text) is None
    }) by {
        let signed = sign + digits;
        assert(digit(digits[0]) >= 0);
        assert(text =~= prefix + signed);
        assert(text.skip(prefix.len() as int) =~= signed);
        assert(signed.skip(sign.len() as int) =~= digits);
        if digits.len() > 1 {
            assert(digit(digits[1]) >= 0);
        }
        assert(without_prefix(text) == signed) by {
            if prefix.len() == 0 {
                assert(text =~= signed);
            }
        }
        assert(without_sign(signed) == digits) by {
            if sign.len() == 0 {
                assert(signed =~= digits);
            }
        }
        lemma_hex_value(digits);
    }
    if address_of(text) is Some {
        let signed = without_prefix(text);
        let digits = without_sign(signed);
        let prefix = text.take(text.len() - signed.len());
        let sign = signed.take(signed.len() - digits.len());
        lemma_hex_value(digits);
        assert(text =~= prefix + sign + digits);
        if prefix.len() == 2 {
            assert(prefix =~= seq!['0', text[1]]);
        } else if prefix.len() == 1 {
            assert(prefix =~= seq!['$']);
        }
        if sign.len() > 0 {
            assert(sign =~= seq!['+']);
        }
        assert(writes_address(text, prefix, sign, digits));
    }
}

/// A text that is no address is quoted when it is refused.
pub proof fn law_refused_addresses_are_quoted(text: Seq<char>)
    ensures
        address_refusal(text) == debug_form(text) + " is not a valid 32-bit address"@,
{
}

/// What a player said is shown byte by byte. A byte that is visible, a space, or
/// one that moves the cursor is shown as it is, and any other one as a backslash,
/// an `x` and its two hexadecimal digits.
pub proof fn law_banners_are_shown_byte_by_byte(first: Seq<u8>, second: Seq<u8>, byte: u8)
    ensures
        banner_text(first + second) == banner_text(first) + banner_text(second),
        banner_text(Seq::empty()) == Seq::<char>::empty(),
        0x20 <= byte <= 0x7e || byte == 9 || byte == 10 || byte == 13 ==> banner_text(seq![byte])
            == seq![byte as char],
        !(0x20 <= byte <= 0x7e || byte == 9 || byte == 10 || byte == 13) ==> {
            let shown = banner_text(seq![byte]);
            &&& shown.len() == 4
            &&& shown[0] == '\\' && shown[1] == 'x'
            &&& shown.skip(2) == hex2(byte)
        },
    decreases second.len(),
{
    reveal_strlit("\\x");
    assert(seq![byte].drop_last() =~= Seq::empty());
    assert(banner_text(Seq::empty()) =~= Seq::empty());
    assert(banner_text(seq![byte]) =~= shown_byte(byte));
    assert(("\\x"@ + hex2(byte)).skip(2) =~= hex2(byte));
    if second.len() == 0 {
        assert(first + second =~= first);
        assert(banner_text(first) + banner_text(second) =~= banner_text(first));
    } else {
        law_banners_are_shown_byte_by_byte(first, second.drop_last(), byte);
        assert((first + second).drop_last() =~= first + second.drop_last());
        assert((first + second).last() == second.last());
        assert(banner_text(first + second) =~= banner_text(first) + banner_text(second));
    }
}

/// A character is a space or moves the cursor.
pub open spec fn is_blank(character: char) -> bool {
    character == ' ' || character == '\t' || character == '\n' || character == '\r'
}

/// Trimming takes the blanks from both ends of a text, all of them and nothing
/// else.
pub proof fn law_blanks_are_trimmed(text: Seq<char>) -> (ends: (int, int))
    ensures
        0 <= ends.0 <= ends.1 <= text.len(),
        trimmed(text) == text.subrange(ends.0, ends.1),
        forall|i: int| 0 <= i < ends.0 ==> is_blank(#[trigger] text[i]),
        forall|i: int| ends.1 <= i < text.len() ==> is_blank(#[trigger] text[i]),
        ends.0 < ends.1 ==> !is_blank(text[ends.0]) && !is_blank(text[ends.1 - 1]),
{
    let from = lemma_leading(text);
    let rest = without_leading_blanks(text);
    let length = lemma_trailing(rest);
    let to = from + length;
    assert(rest.take(length) =~= text.subrange(from, to));
    assert forall|i: int| to <= i < text.len() implies is_blank(#[trigger] text[i]) by {
        assert(rest[i - from] == text[i]);
    }
    if from < to {
        assert(rest[0] == text[from]);
        assert(rest[length - 1] == text[to - 1]);
    }
    (from, to)
}

/// Where the blanks at the beginning end.
proof fn lemma_leading(text: Seq<char>) -> (from: int)
    ensures
        0 <= from <= text.len(),
        without_leading_blanks(text) == text.skip(from),
        forall|i: int| 0 <= i < from ==> is_blank(#[trigger] text[i]),
        from < text.len() ==> !is_blank(text[from]),
    decreases text.len(),
{
    if text.len() > 0 && blank_character(text[0]) {
        let rest = text.skip(1);
        let from = lemma_leading(rest);
        assert(rest.skip(from) =~= text.skip(from + 1));
        assert forall|i: int| 0 <= i < from + 1 implies is_blank(#[trigger] text[i]) by {
            if i > 0 {
                assert(rest[i - 1] == text[i]);
            }
        }
        from + 1
    } else {
        assert(text.skip(0) =~= text);
        0
    }
}

/// Where the blanks at the end begin.
proof fn lemma_trailing(text: Seq<char>) -> (length: int)
    ensures
        0 <= length <= text.len(),
        without_trailing_blanks(text) == text.take(length),
        forall|i: int| length <= i < text.len() ==> is_blank(#[trigger] text[i]),
        length > 0 ==> !is_blank(text[length - 1]),
    decreases text.len(),
{
    if text.len() > 0 && blank_character(text.last()) {
        let rest = text.drop_last();
        let length = lemma_trailing(rest);
        assert(rest.take(length) =~= text.take(length));
        assert forall|i: int| length <= i < text.len() implies is_blank(#[trigger] text[i]) by {
            if i < rest.len() {
                assert(rest[i] == text[i]);
            }
        }
        length
    } else {
        assert(text.take(text.len() as int) =~= text);
        text.len() as int
    }
}

/// A part is to the whole as the bytes that are done to all of them, rounded down.
/// With nothing to do, all is done, and no more can be done than all.
pub open spec fn in_proportion(part: int, whole: int, done: int, total: int) -> bool {
    &&& total == 0 ==> part == whole
    &&& total > 0 && done >= total ==> part == whole
    &&& total > 0 && done < total ==> part * total <= done * whole < (part + 1) * total
}

/// A share is in proportion.
proof fn lemma_in_proportion(done: nat, total: nat, whole: nat)
    ensures
        in_proportion(
            share(done, total, whole) as int,
            whole as int,
            done as int,
            total as int,
        ),
        share(done, total, whole) <= whole,
{
    if total > 0 {
        let part = at_most(done, total);
        let product = part * whole;
        let result = product / total;
        assert(result * total <= product < (result + 1) * total) by (nonlinear_arith)
            requires
                result == product / total,
                total > 0,
        ;
        assert(product <= total * whole) by (nonlinear_arith)
            requires
                product == part * whole,
                part <= total,
        ;
        assert(result <= whole) by (nonlinear_arith)
            requires
                result * total <= product,
                product <= total * whole,
                total > 0,
        ;
        if done >= total {
            assert(result == whole) by (nonlinear_arith)
                requires
                    result * total <= product < (result + 1) * total,
                    product == total * whole,
                    total > 0,
            ;
        }
    }
}

/// The line that shows progress returns to the start of the line and has the
/// label, a bar of thirty characters, the share in percent, and the bytes.
pub proof fn law_progress_is_shown(label: Seq<char>, done: nat, total: nat) -> (shares: (nat, nat))
    ensures
        in_proportion(shares.0 as int, 30, done as int, total as int),
        in_proportion(shares.1 as int, 100, done as int, total as int),
        shares.0 <= 30,
        shares.1 <= 100,
        progress_line(label, done, total) == "\r"@ + label + " ["@ + Seq::new(
            shares.0,
            |i: int| '#',
        ) + Seq::new((30 - shares.0) as nat, |i: int| '-') + "] "@ + padded(
            decimal(shares.1),
            3,
        ) + "% ("@ + decimal(
            if done < total {
                done
            } else {
                total
            },
        ) + "/"@ + decimal(total) + " bytes)"@,
{
    lemma_in_proportion(done, total, 30);
    lemma_in_proportion(done, total, 100);
    let filled = share(done, total, 30);
    assert(repeated('#', filled) =~= Seq::new(filled, |i: int| '#'));
    assert(repeated('-', (30 - filled) as nat) =~= Seq::new((30 - filled) as nat, |i: int| '-'));
    (filled, share(done, total, 100))
}

/// A byte is shown at a place of a line, behind a space.
pub open spec fn traced_at(line: Seq<char>, place: int, byte: u8) -> bool {
    &&& line[place] == ' '
    &&& line.subrange(place + 1, place + 3) == hex2(byte)
}

/// The line that traces bytes names the direction, and shows each of them in two
/// hexadecimal digits behind a space, in order.
pub proof fn law_traces_show_every_byte(direction: Seq<char>, bytes: Seq<u8>)
    ensures
        ({
            let line = uart_line(direction, bytes);
            let intro = "UART "@ + direction + ":"@;
            &&& line.len() == intro.len() + 3 * bytes.len()
            &&& line.take(intro.len() as int) == intro
            &&& forall|i: int|
                0 <= i < bytes.len() ==> traced_at(line, intro.len() + 3 * i, #[trigger] bytes[i])
        }),
{
    let line = uart_line(direction, bytes);
    let intro = "UART "@ + direction + ":"@;
    let list = hex_list(bytes);
    lemma_hex_list(bytes);
    assert(line =~= intro + list);
    assert(line.take(intro.len() as int) =~= intro);
    assert forall|i: int| 0 <= i < bytes.len() implies traced_at(
        line,
        intro.len() + 3 * i,
        #[trigger] bytes[i],
    ) by {
        let place = intro.len() + 3 * i;
        assert(traced_at(list, 3 * i, bytes[i]));
        assert(line[place] == list[3 * i]);
        assert(line.subrange(place + 1, place + 3) =~= list.subrange(3 * i + 1, 3 * i + 3));
    }
}

/// The digits of bytes, one after the other.
proof fn lemma_hex_list(bytes: Seq<u8>)
    ensures
        hex_list(bytes).len() == 3 * bytes.len(),
        forall|i: int|
            0 <= i < bytes.len() ==> traced_at(hex_list(bytes), 3 * i, #[trigger] bytes[i]),
    decreases bytes.len(),
{
    if bytes.len() > 0 {
        let front = bytes.drop_last();
        lemma_hex_list(front);
        let (list, all) = (hex_list(front), hex_list(bytes));
        assert(all =~= list.push(' ') + hex2(bytes.last()));
        assert forall|i: int| 0 <= i < bytes.len() implies traced_at(
            all,
            3 * i,
            #[trigger] bytes[i],
        ) by {
            if i < front.len() {
                assert(front[i] == bytes[i]);
                assert(traced_at(list, 3 * i, front[i]));
                assert(all[3 * i] == list[3 * i]);
                assert(all.subrange(3 * i + 1, 3 * i + 3) =~= list.subrange(3 * i + 1, 3 * i + 3));
            } else {
                assert(all.subrange(3 * i + 1, 3 * i + 3) =~= hex2(bytes[i]));
            }
        }
    }
}

/// A failure is told with what it is about: what the line said, the byte that came,
/// the operation and how often it was tried, or the size that was refused.
pub proof fn law_failures_are_told(failure: Failure)
    ensures
        match failure {
            Failure::Io(fault) => failure_text(failure) == "serial I/O error: "@ + fault.message,
            Failure::Cancelled => failure_text(failure) == "CD-i cancelled the operation"@,
            Failure::UnexpectedNotification(byte) => failure_text(failure)
                == "unexpected protocol notification 0x"@ + hex2(byte),
            Failure::RetryLimitExceeded { operation, attempts } => failure_text(failure)
                == operation + " was rejected "@ + decimal(attempts) + " times"@,
            Failure::InvalidChunkSize(size) => failure_text(failure) == "chunk size "@ + decimal(
                size,
            ) + " must be in 1..=65535"@,
            Failure::InvalidReadResponse => failure_text(failure)
                == "invalid response to read request"@,
        },
{
}

/// A diagnostic line about a call names it, and quotes the path behind a space; one
/// about a number of bytes has them behind it.
pub proof fn law_call_lines_quote_the_path(
    call: Seq<char>,
    path: Seq<char>,
    count: nat,
    unit: Seq<char>,
)
    ensures
        call_line(call, path) == call + seq![' '] + debug_form(path),
        sized_call_line(call, path, count, unit) == call + seq![' '] + debug_form(path) + seq![
            ' ',
            '(',
        ] + decimal(count) + unit,
{
    reveal_strlit(" ");
    reveal_strlit(" (");
    assert(" "@ =~= seq![' ']);
    assert(" ("@ =~= seq![' ', '(']);
}

/// A failure of an OS-9 operation is told with what it is about: the role of the path,
/// the step, the quoted path, and the error code in eight hexadecimal digits.
pub proof fn law_os9_failures_are_told(failure: Os9Failure)
    ensures
        ({
            let text = os9_failure_text(failure);
            match failure {
                Os9Failure::InvalidReadSize => text
                    == "--read-size must be a non-zero multiple of 32, up to 65535"@,
                Os9Failure::InvalidChunkSize => text == "--chunk-size must be in 1..=65535"@,
                Os9Failure::RelativePath => text
                    == "delete requires an absolute OS-9 path, such as /nvr/old-file"@,
                Os9Failure::NulInPath { role } => text == role + " must not contain a NUL byte"@,
                Os9Failure::SmallBuffer { role } => text
                    == "full Stub allocated an unexpectedly small OS-9 "@ + role + " buffer"@,
                Os9Failure::Stub { step, .. } => text == step,
                Os9Failure::OpenDirectory { path } => text == "OS-9 could not open directory "@
                    + debug_form(path) + " (error reported by Stub)"@,
                Os9Failure::DirectoryStatus { path } => text
                    == "OS-9 could not query directory status for "@ + debug_form(path),
                Os9Failure::OpenFile { path } => text == "OS-9 could not open source file "@
                    + debug_form(path) + " (error reported by Stub)"@,
                Os9Failure::Create { path } => text == "OS-9 could not create destination file "@
                    + debug_form(path) + "; it may already exist"@,
                Os9Failure::Write { path, code } => text == "OS-9 reported error 0x"@ + hex8(code)
                    + " while writing "@ + debug_form(path),
                Os9Failure::Delete { path, code } => text == "OS-9 could not delete "@
                    + debug_form(path) + " (error 0x"@ + hex8(code) + ")"@,
                Os9Failure::OutOfMemory => true,
            }
        }),
{
}

} // verus!
