//! What the requests of a session are on the wire, byte for byte.

use vstd::prelude::*;

use crate::dialogue::{after, again, follows, turn, Dialogue};
use crate::error::Failure;
use crate::frame::{
    be16, be32, checked, request_frame, value16, value32, xor_of, ACK, ADDRESS, BAUDRATE, BUFFER,
    CAN, DLE, EM, END, EXECUTE, NAK, OS9CALL, READ, REGISTERS, REG_A0, REG_CARRY, REG_D0, REG_D1,
    SOH, WRITE,
};
use crate::laws::{answered, lemma_send_attempts};
use crate::line::{Call, Event, Reply};
use crate::record::{
    lemma_acknowledgement, lemma_first, lemma_one_call, lemma_send, lemma_transmit, sent,
};
use crate::service::{
    OS9_DIRECTORY_ENTRY_SIZE, OS9_DIRECTORY_READ, OS9_FILE_READ, OS9_FILE_READ_WRITE, OS9_I_CLOSE,
    OS9_I_CREATE, OS9_I_DELETE, OS9_I_GETSTT, OS9_I_OPEN, OS9_I_READ, OS9_I_WRITE,
    OS9_OWNER_READ_WRITE,
};
use crate::stub;
use crate::stub::{byte_time, extra_time, slowing, Settings, NOISE_LIMIT};

verus! {

/// The check byte over two rows is the XOR of those over each; that over a single
/// byte is the byte.
pub proof fn law_check_bytes_are_xors(first: Seq<u8>, second: Seq<u8>, byte: u8)
    ensures
        xor_of(first + second) == xor_of(first) ^ xor_of(second),
        xor_of(seq![byte]) == byte,
        xor_of(Seq::empty()) == 0,
    decreases second.len(),
{
    let only = seq![byte];
    assert(only.drop_last() =~= Seq::empty());
    assert(0u8 ^ byte == byte) by (bit_vector);
    assert(xor_of(only.drop_last()) == 0);
    if second.len() == 0 {
        let check = xor_of(first);
        assert(first + second =~= first);
        assert(check ^ 0u8 == check) by (bit_vector);
    } else {
        let front = second.drop_last();
        let last = second.last();
        law_check_bytes_are_xors(first, front, byte);
        assert((first + second).drop_last() =~= first + front);
        let (a, b) = (xor_of(first), xor_of(front));
        assert((a ^ b) ^ last == a ^ (b ^ last)) by (bit_vector);
    }
}

/// A request is the start marker, its kind, its body, and a check byte that makes
/// the XOR of all of it zero.
pub proof fn law_requests_are_framed(kind: u8, body: Seq<u8>)
    ensures
        ({
            let frame = request_frame(kind, body);
            &&& frame.len() == body.len() + 3
            &&& frame[0] == 0x01
            &&& frame[1] == kind
            &&& frame.subrange(2, frame.len() - 1) == body
            &&& xor_of(frame) == 0
        }),
{
    let front = seq![0x01u8, kind] + body;
    let frame = request_frame(kind, body);
    let check = xor_of(front);
    assert(checked(front).drop_last() =~= front);
    assert(check ^ check == 0) by (bit_vector);
    assert(frame.subrange(2, frame.len() - 1) =~= body);
}

/// The request names a number and nothing else: `SOH`, its kind, the four bytes of
/// the number with the most significant one first, and the check byte.
pub open spec fn names_number(frame: Seq<u8>, kind: u8, number: u32) -> bool {
    &&& frame.len() == 7
    &&& frame[0] == 0x01
    &&& frame[1] == kind
    &&& number == frame[2] * 0x100_0000 + frame[3] * 0x1_0000 + frame[4] * 0x100 + frame[5]
    &&& xor_of(frame) == 0
}

/// A request that is made for a number names it.
proof fn lemma_names_number(kind: u8, number: u32)
    ensures
        names_number(request_frame(kind, be32(number)), kind, number),
{
    let frame = request_frame(kind, be32(number));
    law_requests_are_framed(kind, be32(number));
    let (a, b, c, d) = (
        number / 0x100_0000,
        number / 0x1_0000 % 0x100,
        number / 0x100 % 0x100,
        number % 0x100,
    );
    assert(a < 0x100 && a * 0x100_0000 + b * 0x1_0000 + c * 0x100 + d == number) by (bit_vector)
        requires
            a == number / 0x100_0000,
            b == number / 0x1_0000 % 0x100,
            c == number / 0x100 % 0x100,
            d == number % 0x100,
    ;
    assert(frame.subrange(2, 6) =~= be32(number));
    assert(frame.subrange(2, 6)[0] == frame[2] && frame.subrange(2, 6)[1] == frame[3]
        && frame.subrange(2, 6)[2] == frame[4] && frame.subrange(2, 6)[3] == frame[5]);
}

/// Two numbers that the same request names are the same.
pub proof fn law_requests_name_one_number(frame: Seq<u8>, kind: u8, one: u32, other: u32)
    requires
        names_number(frame, kind, one),
        names_number(frame, kind, other),
    ensures
        one == other,
{
}

/// Starting code at an address sends the request that names this very address,
/// once for each attempt, and nothing else, whatever comes of it.
pub proof fn law_code_is_started_where_asked(
    settings: Settings,
    address: u32,
    log: Seq<Event>,
    outcome: Result<(), Failure>,
) -> (frame: Seq<u8>)
    requires
        follows(log, stub::execute(settings, address), outcome),
    ensures
        names_number(frame, 0x04, address),
        answered(frame, settings.retries + 1, log, outcome),
        rejected_as("execute request"@, settings, outcome),
{
    let frame = request_frame(0x04, be32(address));
    lemma_names_number(0x04, address);
    lemma_request(settings, frame, "execute request"@, log, outcome);
    frame
}

/// A request that is rejected too often says how often: once more than there are
/// retries. A request has no other failures than that, a cancellation and those
/// of the line.
pub open spec fn rejected_as(
    operation: Seq<char>,
    settings: Settings,
    outcome: Result<(), Failure>,
) -> bool {
    outcome matches Err(error) ==> {
        ||| error is Io
        ||| error is Cancelled
        ||| error == (Failure::RetryLimitExceeded { operation, attempts: settings.retries + 1 })
    }
}

/// The record of a request.
pub proof fn lemma_request(
    settings: Settings,
    frame: Seq<u8>,
    operation: Seq<char>,
    log: Seq<Event>,
    outcome: Result<(), Failure>,
)
    requires
        follows(log, stub::send_acknowledged(settings, frame, operation), outcome),
        frame.len() > 0,
    ensures
        answered(frame, settings.retries + 1, log, outcome),
        rejected_as(operation, settings, outcome),
{
    lemma_send_attempts(settings, frame, operation, settings.retries + 1, log, outcome);
    lemma_rejected(settings, frame, operation, settings.retries + 1, log, outcome);
}

/// The failures of a request.
proof fn lemma_rejected(
    settings: Settings,
    frame: Seq<u8>,
    operation: Seq<char>,
    attempts: nat,
    log: Seq<Event>,
    outcome: Result<(), Failure>,
)
    requires
        follows(log, stub::send_attempts(settings, frame, operation, attempts), outcome),
        frame.len() > 0,
    ensures
        rejected_as(operation, settings, outcome),
    decreases attempts,
{
    if attempts > 0 {
        let whole = stub::send_attempts(settings, frame, operation, attempts);
        let transmission = stub::transmit(settings, frame);
        let (first, transmitted, rest, next) = lemma_first(
            transmission,
            whole,
            log,
            outcome,
        );
        lemma_transmit(settings, frame, first, transmitted);
        if transmitted is Err {
            assert(rest.len() == 0);
        } else {
            let waiting = stub::read_acknowledgement(settings, NOISE_LIMIT as nat);
            let (wait, answer, last, _) = lemma_first(waiting, next, rest, outcome);
            lemma_acknowledgement(
                settings,
                NOISE_LIMIT as nat,
                wait,
                answer,
            );
            if answer == Ok::<u8, Failure>(0x15) {
                lemma_rejected(settings, frame, operation, (attempts - 1) as nat, last, outcome);
            } else {
                assert(last.len() == 0);
            }
        }
    }
}

/// Selecting an address sends the request that names it, and nothing else.
pub proof fn law_addresses_are_named(
    settings: Settings,
    address: u32,
    log: Seq<Event>,
    outcome: Result<(), Failure>,
) -> (frame: Seq<u8>)
    requires
        follows(log, stub::set_address(settings, address), outcome),
    ensures
        names_number(frame, 0x02, address),
        answered(frame, settings.retries + 1, log, outcome),
        rejected_as("address request"@, settings, outcome),
{
    reveal(stub::set_address);
    let frame = request_frame(0x02, be32(address));
    lemma_names_number(0x02, address);
    lemma_request(settings, frame, "address request"@, log, outcome);
    frame
}

/// Selecting registers sends the request that names their mask, and nothing else.
pub proof fn law_registers_are_named(
    settings: Settings,
    mask: u32,
    log: Seq<Event>,
    outcome: Result<(), Failure>,
) -> (frame: Seq<u8>)
    requires
        follows(log, stub::select_registers(settings, mask), outcome),
    ensures
        names_number(frame, 0x83, mask),
        answered(frame, settings.retries + 1, log, outcome),
        rejected_as("register request"@, settings, outcome),
{
    reveal(stub::select_registers);
    let frame = request_frame(0x83, be32(mask));
    lemma_names_number(0x83, mask);
    lemma_request(settings, frame, "register request"@, log, outcome);
    frame
}

/// Ending a Stub sends the request that says so, and nothing else.
pub proof fn law_stubs_are_ended(
    settings: Settings,
    log: Seq<Event>,
    outcome: Result<(), Failure>,
)
    requires
        follows(log, stub::end(settings), outcome),
    ensures
        answered(seq![0x01u8, 0x08u8, 0x09u8], settings.retries + 1, log, outcome),
        rejected_as("end request"@, settings, outcome),
{
    let frame = request_frame(0x08, seq![]);
    let front = seq![0x01u8, 0x08u8] + Seq::<u8>::empty();
    assert(front =~= seq![0x01u8] + seq![0x08u8]);
    law_check_bytes_are_xors(seq![0x01u8], seq![0x08u8], 0x01);
    law_check_bytes_are_xors(seq![0x01u8], seq![0x08u8], 0x08);
    assert(1u8 ^ 8u8 == 9u8) by (bit_vector);
    assert(frame =~= seq![0x01u8, 0x08u8, 0x09u8]);
    lemma_request(settings, frame, "end request"@, log, outcome);
}

/// A write of more than 65535 bytes is refused without a word. Any other sends
/// the request that carries the length of the data in two bytes and the data,
/// and nothing else.
pub proof fn law_writes_carry_their_data(
    settings: Settings,
    data: Seq<u8>,
    log: Seq<Event>,
    outcome: Result<(), Failure>,
) -> (frame: Seq<u8>)
    requires
        follows(log, stub::write(settings, data), outcome),
    ensures
        data.len() > 0xffff ==> log.len() == 0 && outcome == Err::<(), Failure>(
            Failure::InvalidChunkSize(data.len()),
        ),
        data.len() <= 0xffff ==> {
            &&& frame.len() == data.len() + 5
            &&& frame[0] == 0x01
            &&& frame[1] == 0x01
            &&& data.len() == frame[2] * 0x100 + frame[3]
            &&& frame.subrange(4, frame.len() - 1) == data
            &&& xor_of(frame) == 0
            &&& answered(frame, settings.retries + 1, log, outcome)
            &&& rejected_as("write request"@, settings, outcome)
        },
{
    reveal(stub::write);
    let size = data.len() as u16;
    let body = be16(size) + data;
    let frame = request_frame(0x01, body);
    if data.len() <= 0xffff {
        law_requests_are_framed(0x01, body);
        lemma_request(settings, frame, "write request"@, log, outcome);
        assert(frame.subrange(2, frame.len() - 1)[0] == body[0]);
        assert(frame.subrange(2, frame.len() - 1)[1] == body[1]);
        assert(frame.subrange(4, frame.len() - 1) =~= frame.subrange(2, frame.len() - 1).skip(2));
        assert(body.skip(2) =~= data);
    }
    frame
}

/// Sizes that no request can carry are refused without a word.
pub proof fn law_sizes_are_checked(
    settings: Settings,
    size: nat,
    address: u32,
    data: Seq<u8>,
    total: nat,
)
    requires
        size == 0 || size > 0xffff,
    ensures
        stub::allocate_buffer(settings, size) == Dialogue::Over(
            Err::<(usize, u32), Failure>(Failure::InvalidChunkSize(size)),
        ),
        stub::read(settings, size) == Dialogue::Over(
            Err::<Seq<u8>, Failure>(Failure::InvalidChunkSize(size)),
        ),
        stub::download(settings, address, data, size) == Dialogue::Over(
            Err::<(), Failure>(Failure::InvalidChunkSize(size)),
        ),
        stub::upload(settings, address, total, size) == Dialogue::Over(
            Err::<Seq<u8>, Failure>(Failure::InvalidChunkSize(size)),
        ),
{
    reveal(stub::allocate_buffer);
    reveal(stub::read);
}

/// Numbers are read from the wire as they are put on it.
pub proof fn law_numbers_are_big_endian(bytes: Seq<u8>)
    ensures
        bytes.len() >= 2 ==> value16(bytes) == bytes[0] * 0x100 + bytes[1],
        bytes.len() >= 4 ==> value32(bytes) == bytes[0] * 0x100_0000 + bytes[1] * 0x1_0000
            + bytes[2] * 0x100 + bytes[3],
{
}

/// A byte with its framing is ten bits, and its time at a speed is rounded down
/// to whole nanoseconds.
pub proof fn law_byte_times(baud: nat)
    requires
        baud > 0,
    ensures
        byte_time(baud) * baud <= 10_000_000_000,
        10_000_000_000 < (byte_time(baud) + 1) * baud,
{
    let time = byte_time(baud);
    assert(time == 10_000_000_000nat / baud);
    assert(time * baud <= 10_000_000_000 && 10_000_000_000 < (time + 1) * baud)
        by (nonlinear_arith)
        requires
            time == 10_000_000_000nat / baud,
            baud > 0,
    ;
}

/// Pacing makes up the difference: a byte and the wait after it take as long as
/// the byte would at the slower speed. Without pacing there is no wait.
pub proof fn law_pacing_makes_up_the_difference(physical: nat, effective: nat)
    requires
        0 < effective < physical,
    ensures
        byte_time(physical) + extra_time(Some((physical, effective))) == byte_time(effective),
        extra_time(None) == 0,
{
    assert(byte_time(effective) >= byte_time(physical)) by {
        assert(10_000_000_000nat / effective >= 10_000_000_000nat / physical)
            by (nonlinear_arith)
            requires
                0 < effective < physical,
        ;
    }
}

/// The numbers by which a player knows requests, answers, registers and the calls
/// of its operating system.
pub proof fn law_players_are_asked_by_number()
    ensures
        SOH == 0x01 && DLE == 0x10 && ACK == 0x06 && NAK == 0x15 && CAN == 0x14 && EM == 0x19,
        WRITE == 0x01 && ADDRESS == 0x02 && EXECUTE == 0x04 && END == 0x08,
        BAUDRATE == 0x80 && READ == 0x81 && BUFFER == 0x82 && REGISTERS == 0x83 && OS9CALL == 0x84,
        REG_D0 == 0x1 && REG_D1 == 0x2 && REG_A0 == 0x100 && REG_CARRY == 0x8000_0000,
        OS9_I_CREATE == 0x83 && OS9_I_OPEN == 0x84 && OS9_I_DELETE == 0x87,
        OS9_I_READ == 0x89 && OS9_I_WRITE == 0x8a && OS9_I_GETSTT == 0x8d && OS9_I_CLOSE == 0x8f,
        OS9_FILE_READ == 0x01 && OS9_FILE_READ_WRITE == 0x03 && OS9_DIRECTORY_READ == 0x81,
        OS9_OWNER_READ_WRITE == 0x03 && OS9_DIRECTORY_ENTRY_SIZE == 32,
{
}

/// A link is slowed exactly if the speed that it is to behave like is slower, and it
/// then takes as long for a byte as that one does.
pub proof fn law_links_are_slowed(physical: u32, effective: u32)
    ensures
        slowing(physical, effective) is Some <==> 0 < effective < physical,
        0 < effective < physical ==> byte_time(physical as nat) + extra_time(
            slowing(physical, effective),
        ) == byte_time(effective as nat),
        !(0 < effective < physical) ==> extra_time(slowing(physical, effective)) == 0,
{
    if 0 < effective < physical {
        law_pacing_makes_up_the_difference(physical as nat, effective as nat);
    }
}

/// Bytes were accepted.
pub open spec fn accepts_bytes(event: Event) -> bool {
    event.call is Write && (event.reply matches Reply::Accepted(count) && count > 0)
}

/// Right after every transmission the session waits for as long as the pacing asks
/// for, and at no other time.
pub open spec fn waited(settings: Settings, log: Seq<Event>) -> bool {
    &&& forall|i: int|
        0 <= i < log.len() && accepts_bytes(#[trigger] log[i]) ==> i + 1 < log.len() && log[i
            + 1].call == Call::Pause(extra_time(settings.tx_pacing))
    &&& forall|i: int|
        0 <= i < log.len() && (#[trigger] log[i]).call is Pause ==> i > 0 && accepts_bytes(
            log[i - 1],
        )
}

/// While transmission is slowed, every byte that is accepted is followed by the wait
/// that makes the link behave like the slower one.
pub proof fn law_transmissions_are_waited_for(
    settings: Settings,
    bytes: Seq<u8>,
    log: Seq<Event>,
    outcome: Result<(), Failure>,
)
    requires
        follows(log, stub::write_all(settings, bytes), outcome),
        !settings.raw_uart_trace,
        extra_time(settings.tx_pacing) > 0,
    ensures
        waited(settings, log),
    decreases bytes.len(),
{
    if bytes.len() == 0 {
        assert(log.len() == 0);
    } else {
        let whole = stub::write_all(settings, bytes);
        let call = Call::Write(stub::offered(settings, bytes));
        let (one, reply, rest, next) = lemma_first(turn(call), whole, log, outcome);
        lemma_last_of_calls(one, call, reply);
        lemma_one_call(one, call, reply);
        let last = one.len() - 1;
        match reply {
            Reply::Accepted(count) if count > 0 => {
                let part = bytes.take(count as int);
                let trace = stub::trace_uart(settings, "TX"@, part);
                let (notes, _, later, then) = lemma_first(trace, next, rest, outcome);
                assert(notes.len() == 0);
                let wait = Call::Pause(extra_time(settings.tx_pacing));
                let pacing = stub::pace_tx_byte(settings);
                let (two, _, tail, end) = lemma_first(pacing, then, later, outcome);
                let (pause, done, over, _) = lemma_first(turn(wait), pacing, two, ());
                assert(over.len() == 0);
                assert(pause =~= two);
                lemma_last_of_calls(two, wait, done);
                lemma_one_call(two, wait, done);
                law_transmissions_are_waited_for(
                    settings,
                    bytes.skip(count as int),
                    tail,
                    outcome,
                );
                assert(two.len() == 1) by {
                    if two.len() > 1 {
                        assert(again(two[0]));
                        assert(two[0].call == wait);
                    }
                }
                assert(log =~= one + two + tail);
                assert forall|i: int|
                    0 <= i < log.len() && accepts_bytes(#[trigger] log[i]) implies i + 1
                    < log.len() && log[i + 1].call == wait by {
                    if i < last {
                        assert(log[i] == one[i]);
                        assert(again(one[i]));
                    } else if i == last {
                        assert(log[i + 1] == two[0]);
                    } else if i == last + 1 {
                        assert(log[i] == two[0]);
                    } else {
                        assert(log[i] == tail[i - one.len() - 1]);
                        assert(log[i + 1] == tail[i - one.len()]);
                    }
                }
                assert forall|i: int|
                    0 <= i < log.len() && (#[trigger] log[i]).call is Pause implies i > 0
                    && accepts_bytes(log[i - 1]) by {
                    if i <= last {
                        assert(log[i] == one[i]);
                    } else if i == last + 1 {
                        assert(log[i - 1] == one[last]);
                    } else {
                        assert(log[i] == tail[i - one.len() - 1]);
                        assert(log[i - 1] == tail[i - one.len() - 2]);
                    }
                }
            },
            _ => {
                assert(rest.len() == 0);
                assert(log =~= one);
                assert forall|i: int| 0 <= i < log.len() implies !accepts_bytes(
                    #[trigger] log[i],
                ) by {
                    if i < last {
                        assert(again(one[i]));
                    }
                }
            },
        }
    }
}

/// Of a call that is made again and again, only the last is not interrupted, and it
/// has the answer.
proof fn lemma_last_of_calls(log: Seq<Event>, call: Call, reply: Reply)
    requires
        follows(log, turn(call), reply),
    ensures
        log.len() > 0,
        log.last() == (Event { call, reply }),
        forall|i: int| 0 <= i < log.len() - 1 ==> again(#[trigger] log[i]),
    decreases log.len(),
{
    let dialogue = turn(call);
    assert(log.len() > 0);
    if again(log[0]) {
        let later = log.skip(1);
        assert(after(dialogue, log) == after(dialogue, later));
        lemma_last_of_calls(later, call, reply);
        assert(log.last() == later.last());
        assert forall|i: int| 0 <= i < log.len() - 1 implies again(#[trigger] log[i]) by {
            if i > 0 {
                assert(log[i] == later[i - 1]);
            }
        }
    } else {
        assert(after(dialogue, log) == after(Dialogue::Over(log[0].reply), log.skip(1)));
        assert(log.skip(1).len() == 0);
        assert(log[0] == (Event { call, reply }));
    }
}

/// Sending ends with pushing everything out.
proof fn lemma_flushed(settings: Settings, bytes: Seq<u8>, log: Seq<Event>)
    requires
        follows(log, stub::send(settings, bytes), Ok::<(), Failure>(())),
    ensures
        log.len() > 0,
        log.last().call == Call::Flush,
        sent(log) == bytes,
{
    let outcome = Ok::<(), Failure>(());
    let whole = stub::send(settings, bytes);
    let (one, written, rest, _) = lemma_first(
        stub::write_all(settings, bytes),
        whole,
        log,
        outcome,
    );
    assert(written is Ok) by {
        if written is Err {
            assert(rest.len() == 0);
        }
    }
    let (two, reply, last, _) = lemma_first(turn(Call::Flush), stub::flush(), rest, outcome);
    assert(last.len() == 0);
    lemma_last_of_calls(two, Call::Flush, reply);
    assert(log.last() == two.last());
    lemma_send(settings, bytes, log, outcome);
}

/// A frame is sent in two parts: its first byte, which is pushed out, and after a
/// millisecond of silence all the others, which are pushed out too.
pub proof fn law_frames_begin_with_a_silence(
    settings: Settings,
    frame: Seq<u8>,
    log: Seq<Event>,
) -> (silence: int)
    requires
        follows(log, stub::transmit(settings, frame), Ok::<(), Failure>(())),
        frame.len() > 0,
    ensures
        0 < silence < log.len() - 1,
        log[silence].call == Call::Pause(1_000_000),
        sent(log.take(silence)) == seq![frame[0]],
        log[silence - 1].call == Call::Flush,
        sent(log.skip(silence + 1)) == frame.skip(1),
        log.last().call == Call::Flush,
{
    let outcome = Ok::<(), Failure>(());
    let whole = stub::transmit(settings, frame);
    let head = frame.take(1);
    let (one, first, rest, next) = lemma_first(
        stub::send(settings, head),
        whole,
        log,
        outcome,
    );
    assert(first is Ok) by {
        if first is Err {
            assert(rest.len() == 0);
        }
    }
    assert(first == outcome);
    lemma_flushed(settings, head, one);
    let wait = Call::Pause(1_000_000);
    let (two, reply, last, _) = lemma_first(turn(wait), next, rest, outcome);
    lemma_last_of_calls(two, wait, reply);
    lemma_one_call(two, wait, reply);
    assert(two.len() == 1) by {
        if two.len() > 1 {
            assert(again(two[0]));
            assert(two[0].call == wait);
        }
    }
    lemma_flushed(settings, frame.skip(1), last);
    let silence = one.len() as int;
    assert(log =~= one + two + last);
    assert(log.take(silence) =~= one);
    assert(log.skip(silence + 1) =~= last);
    assert(log[silence] == two[0]);
    assert(log[silence - 1] == one.last());
    assert(log.last() == last.last());
    assert(head =~= seq![frame[0]]);
    silence
}

} // verus!
