//! What holds of the library as a whole.

use vstd::prelude::*;

use crate::dialogue::follows;
use crate::error::Failure;
use crate::frame::{
    be16, be32, checked, request_frame, response_frame, value16, value32, xor_of, ACK, ADDRESS,
    BAUDRATE, BUFFER, CAN, DLE, EM, NAK, OS9CALL, READ, SOH, WRITE,
};
use crate::line::Event;
use crate::record::{
    answers, copies, ends, heard, holds_header, lemma_acknowledgement, lemma_answers_concat,
    lemma_ends_behind, lemma_ends_with_more, lemma_expect_header, lemma_first, lemma_notification,
    lemma_read_exact, lemma_response_body, lemma_response_header, lemma_send, lemma_transmit,
    orderly, rejected_then, sent, starts,
};
use crate::session::chunk_ends;
use crate::stub;
use crate::stub::{Settings, NOISE_LIMIT};

verus! {

/// A frame with its check byte has a XOR of zero, whatever it holds: this is how
/// the other side checks it.
pub proof fn law_frames_cancel_out(kind: u8, body: Seq<u8>)
    ensures
        xor_of(request_frame(kind, body)) == 0,
        xor_of(response_frame(kind, body)) == 0,
{
    let request = seq![SOH, kind] + body;
    let response = seq![DLE, kind] + body;
    let first = xor_of(request);
    let second = xor_of(response);
    assert(checked(request).drop_last() =~= request);
    assert(checked(response).drop_last() =~= response);
    assert(first ^ first == 0) by (bit_vector);
    assert(second ^ second == 0) by (bit_vector);
}

/// Numbers are big-endian, and a 16-bit number and its bytes determine each
/// other.
pub proof fn law_short_numbers_round_trip(number: u16, bytes: Seq<u8>)
    ensures
        value16(be16(number)) == number,
        bytes.len() == 2 ==> be16(value16(bytes)) == bytes,
{
    if bytes.len() == 2 {
        assert(be16(value16(bytes)) =~= bytes);
    }
}

/// A 32-bit number is recovered from its bytes.
pub proof fn law_numbers_round_trip(number: u32)
    ensures
        value32(be32(number)) == number,
{
    let a = number / 0x100_0000;
    let b = number / 0x1_0000 % 0x100;
    let c = number / 0x100 % 0x100;
    let d = number % 0x100;
    assert(a < 0x100 && a * 0x100_0000 + b * 0x1_0000 + c * 0x100 + d == number) by (bit_vector)
        requires
            a == number / 0x100_0000,
            b == number / 0x1_0000 % 0x100,
            c == number / 0x100 % 0x100,
            d == number % 0x100,
    ;
}

/// Four bytes are recovered from the 32-bit number that they stand for.
pub proof fn law_number_bytes_round_trip(bytes: Seq<u8>)
    requires
        bytes.len() == 4,
    ensures
        be32(value32(bytes)) == bytes,
{
    let number = value32(bytes);
    let (a, b, c, d) = (bytes[0], bytes[1], bytes[2], bytes[3]);
    assert(number == a * 0x100_0000 + b * 0x1_0000 + c * 0x100 + d);
    assert(number / 0x100_0000 == a && number / 0x1_0000 % 0x100 == b && number / 0x100 % 0x100
        == c && number % 0x100 == d) by (bit_vector)
        requires
            number == a * 0x100_0000 + b * 0x1_0000 + c * 0x100 + d,
    ;
    assert(be32(number) =~= bytes);
}

/// A request was answered as the outcome says. The frame is transmitted once
/// for each answer, always the same: after a rejection again, until it is
/// acknowledged, cancelled, or rejected once more than there are retries.
pub open spec fn answered(
    frame: Seq<u8>,
    attempts: nat,
    log: Seq<Event>,
    outcome: Result<(), Failure>,
) -> bool {
    let answers = answers(heard(log));
    match outcome {
        Ok(_) => {
            &&& 1 <= answers.len() <= attempts
            &&& answers == rejected_then((answers.len() - 1) as nat, ACK)
            &&& sent(log) == copies(frame, answers.len())
        },
        Err(Failure::Cancelled) => {
            &&& 1 <= answers.len() <= attempts
            &&& answers == rejected_then((answers.len() - 1) as nat, CAN)
            &&& sent(log) == copies(frame, answers.len())
        },
        Err(Failure::RetryLimitExceeded { .. }) => {
            &&& answers == copies(seq![NAK], attempts)
            &&& sent(log) == copies(frame, attempts)
        },
        Err(Failure::Io(_)) => {
            &&& answers.len() < attempts
            &&& answers == copies(seq![NAK], answers.len())
            &&& starts(copies(frame, answers.len()), sent(log))
            &&& starts(sent(log), copies(frame, answers.len() + 1))
        },
        _ => false,
    }
}

/// How long a number of copies is.
proof fn lemma_copies_len(bytes: Seq<u8>, count: nat)
    ensures
        copies(bytes, count).len() == bytes.len() * count,
    decreases count,
{
    if count > 0 {
        lemma_copies_len(bytes, (count - 1) as nat);
        assert(bytes.len() * count == bytes.len() + bytes.len() * (count - 1)) by (nonlinear_arith)
            requires
                count > 0,
        ;
    } else {
        assert(bytes.len() * count == 0) by (nonlinear_arith)
            requires
                count == 0,
        ;
    }
}

/// Something in front of two rows, of which one begins with the other.
proof fn lemma_starts_behind(front: Seq<u8>, part: Seq<u8>, whole: Seq<u8>)
    requires
        starts(part, whole),
    ensures
        starts(front + part, front + whole),
{
    assert forall|i: int| 0 <= i < (front + part).len() implies (front + whole)[i] == (front
        + part)[i] by {
        if i >= front.len() {
            assert(whole.take(part.len() as int)[i - front.len()] == part[i - front.len()]);
        }
    }
    assert((front + whole).take((front + part).len() as int) =~= front + part);
}

/// The same for a request that can still be sent a number of times.
pub proof fn lemma_send_attempts(
    settings: Settings,
    frame: Seq<u8>,
    operation: Seq<char>,
    attempts: nat,
    log: Seq<Event>,
    outcome: Result<(), Failure>,
)
    requires
        follows(log, stub::send_attempts(settings, frame, operation, attempts), outcome),
        frame.len() > 0,
    ensures
        orderly(settings, log),
        answered(frame, attempts, log, outcome),
    decreases attempts,
{
    let whole = stub::send_attempts(settings, frame, operation, attempts);
    assert(copies(frame, 0) =~= Seq::empty());
    assert(copies(seq![NAK], 0) =~= Seq::empty());
    if attempts == 0 {
        assert(log.len() == 0);
        assert(heard(log) =~= Seq::empty());
        assert(sent(log) =~= Seq::empty());
    } else {
        let transmission = stub::transmit(settings, frame);
        let (first, transmitted, rest, then) = lemma_first(transmission, whole, log, outcome);
        lemma_transmit(settings, frame, first, transmitted);
        assert(copies(frame, 1) =~= frame);
        match transmitted {
            Ok(_) => {
                let waiting = stub::read_acknowledgement(settings, NOISE_LIMIT as nat);
                let (wait, answer, last, _) = lemma_first(waiting, then, rest, outcome);
                lemma_acknowledgement(settings, NOISE_LIMIT as nat, wait, answer);
                lemma_answers_concat(heard(wait), heard(last));
                assert(heard(log) =~= heard(wait) + heard(last));
                assert(sent(log) =~= frame + sent(last));
                match answer {
                    Ok(byte) => {
                        if byte == NAK {
                            lemma_send_attempts(
                                settings,
                                frame,
                                operation,
                                (attempts - 1) as nat,
                                last,
                                outcome,
                            );
                            let later = answers(heard(last));
                            assert(answers(heard(log)) =~= seq![NAK] + later);
                            if outcome is Ok {
                                assert(answers(heard(log)) =~= rejected_then(later.len(), ACK));
                            }
                            if outcome == Err::<(), Failure>(Failure::Cancelled) {
                                assert(answers(heard(log)) =~= rejected_then(later.len(), CAN));
                            }
                            if outcome matches Err(Failure::Io(_)) {
                                let again = copies(frame, later.len());
                                lemma_starts_behind(frame, again, sent(last));
                                lemma_starts_behind(
                                    frame,
                                    sent(last),
                                    copies(frame, later.len() + 1),
                                );
                            }
                        } else {
                            assert(last.len() == 0);
                            assert(heard(last) =~= Seq::empty());
                            assert(sent(last) =~= Seq::empty());
                            assert(answers(heard(log)) =~= seq![byte]);
                            assert(rejected_then(0, byte) =~= seq![byte]);
                            assert(sent(log) =~= frame);
                        }
                    },
                    Err(_) => {
                        assert(last.len() == 0);
                        assert(heard(last) =~= Seq::empty());
                        assert(sent(last) =~= Seq::empty());
                        assert(answers(heard(log)) =~= Seq::empty());
                        assert(sent(log) =~= frame);
                        assert(frame.take(frame.len() as int) =~= frame);
                        assert(frame.take(0) =~= Seq::empty());
                    },
                }
            },
            Err(_) => {
                assert(rest.len() == 0);
                assert(heard(log) =~= Seq::empty());
                assert(sent(log) =~= sent(first));
                assert(sent(log).take(0) =~= Seq::empty());
            },
        }
    }
}

/// A rejected request is sent again, byte for byte, up to the number of
/// retries; what is heard besides answers has no effect.
pub proof fn law_rejected_requests_are_repeated(
    settings: Settings,
    frame: Seq<u8>,
    operation: Seq<char>,
    log: Seq<Event>,
    outcome: Result<(), Failure>,
)
    requires
        follows(log, stub::send_acknowledged(settings, frame, operation), outcome),
        frame.len() > 0,
    ensures
        answered(frame, settings.retries + 1, log, outcome),
{
    lemma_send_attempts(settings, frame, operation, settings.retries + 1, log, outcome);
}

/// A request and the response to it: the request was acknowledged, then a
/// response of this kind with this body came, and was acknowledged after a
/// number of rejections.
pub open spec fn exchanged(
    settings: Settings,
    frame: Seq<u8>,
    kind: u8,
    body: Seq<u8>,
    rejections: nat,
    log: Seq<Event>,
) -> bool {
    exists|cut: int|
        #![trigger log.take(cut)]
        {
            &&& 0 <= cut <= log.len()
            &&& answered(frame, settings.retries + 1, log.take(cut), Ok(()))
            &&& ends(heard(log.skip(cut)), response_frame(kind, body))
            &&& sent(log.skip(cut)) == rejected_then(rejections, ACK)
        }
}

/// The two parts of an exchange.
proof fn lemma_exchanged(
    settings: Settings,
    frame: Seq<u8>,
    kind: u8,
    body: Seq<u8>,
    rejections: nat,
    request: Seq<Event>,
    response: Seq<Event>,
)
    requires
        answered(frame, settings.retries + 1, request, Ok(())),
        ends(heard(response), response_frame(kind, body)),
        sent(response) == rejected_then(rejections, ACK),
    ensures
        exchanged(settings, frame, kind, body, rejections, request + response),
{
    let log = request + response;
    let cut = request.len() as int;
    assert(log.take(cut) =~= request);
    assert(log.skip(cut) =~= response);
}

/// A header and a body with the right check byte are a response frame.
proof fn lemma_response_frame(header: Seq<u8>, kind: u8, body: Seq<u8>)
    requires
        ends(header, seq![DLE, kind]),
    ensures
        ends(header + body.push(xor_of(seq![DLE, kind] + body)), response_frame(kind, body)),
{
    let more = body.push(xor_of(seq![DLE, kind] + body));
    lemma_ends_with_more(header, seq![DLE, kind], more);
    assert(seq![DLE, kind] + more =~= response_frame(kind, body));
}

/// What is sent to acknowledge a good response at once.
proof fn lemma_at_once()
    ensures
        rejected_then(0, ACK) == seq![ACK],
{
    assert(rejected_then(0, ACK) =~= seq![ACK]);
}

/// A buffer is allocated by one exchange: the size that is wanted goes to the
/// player, and the size and address that are returned come from it.
pub proof fn law_buffer_comes_from_the_player(
    settings: Settings,
    size: nat,
    log: Seq<Event>,
    outcome: Result<(usize, u32), Failure>,
)
    requires
        follows(log, stub::allocate_buffer(settings, size), outcome),
    ensures
        orderly(settings, log),
        outcome matches Ok((actual, address)) ==> {
            &&& 1 <= size <= 0xffff
            &&& actual <= 0xffff
            &&& exchanged(
                settings,
                request_frame(BUFFER, be16(size as u16)),
                BUFFER,
                be16(actual as u16) + be32(address),
                0,
                log,
            )
        },
{
    reveal(stub::allocate_buffer);
    if stub::valid_chunk_size(size) {
        let frame = request_frame(BUFFER, be16(size as u16));
        let whole = stub::allocate_buffer(settings, size);
        let sending = stub::send_acknowledged(settings, frame, "buffer request"@);
        let (request, accepted, rest, next) = lemma_first(sending, whole, log, outcome);
        lemma_send_attempts(
            settings,
            frame,
            "buffer request"@,
            settings.retries + 1,
            request,
            accepted,
        );
        if accepted is Ok {
            let finding = stub::read_response_header(settings, BUFFER, NOISE_LIMIT as nat);
            let (header, found, last, next) = lemma_first(finding, next, rest, outcome);
            lemma_response_header(settings, BUFFER, NOISE_LIMIT as nat, false, header, found);
            if found is Ok {
                let rejection = Failure::InvalidReadResponse;
                let reading = stub::read_response_body(settings, BUFFER, 6, rejection);
                let (body_log, read, end, _) = lemma_first(reading, next, last, outcome);
                lemma_response_body(settings, BUFFER, 6, rejection, body_log, read);
                assert(end.len() == 0);
                if let Ok(body) = read {
                    lemma_response_frame(heard(header), BUFFER, body);
                    lemma_at_once();
                    assert(heard(rest) =~= heard(header) + heard(body_log));
                    assert(sent(rest) =~= seq![ACK]);
                    law_short_numbers_round_trip(0, body.take(2));
                    law_number_bytes_round_trip(body.skip(2));
                    assert(value16(body) == value16(body.take(2)));
                    assert(body.take(2) + body.skip(2) =~= body);
                    lemma_exchanged(settings, frame, BUFFER, body, 0, request, rest);
                }
            } else {
                assert(last.len() == 0);
            }
        } else {
            assert(rest.len() == 0);
        }
    } else {
        assert(log.len() == 0);
    }
}

/// An OS-9 call is one exchange: the call and the mask go to the player, and
/// the mask that is returned comes from it.
pub proof fn law_call_result_comes_from_the_player(
    settings: Settings,
    call: u16,
    result_mask: u32,
    log: Seq<Event>,
    outcome: Result<u32, Failure>,
)
    requires
        follows(log, stub::os9_call(settings, call, result_mask), outcome),
    ensures
        orderly(settings, log),
        outcome matches Ok(mask) ==> exchanged(
            settings,
            request_frame(OS9CALL, be16(call) + be32(result_mask)),
            OS9CALL,
            be32(mask),
            0,
            log,
        ),
{
    reveal(stub::os9_call);
    let frame = request_frame(OS9CALL, be16(call) + be32(result_mask));
    let whole = stub::os9_call(settings, call, result_mask);
    let sending = stub::send_acknowledged(settings, frame, "OS-9 call request"@);
    let (request, accepted, rest, next) = lemma_first(sending, whole, log, outcome);
    lemma_send_attempts(
        settings,
        frame,
        "OS-9 call request"@,
        settings.retries + 1,
        request,
        accepted,
    );
    if accepted is Ok {
        let finding = stub::read_response_header(settings, OS9CALL, NOISE_LIMIT as nat);
        let (header, found, last, next) = lemma_first(finding, next, rest, outcome);
        lemma_response_header(settings, OS9CALL, NOISE_LIMIT as nat, false, header, found);
        if found is Ok {
            let rejection = Failure::InvalidReadResponse;
            let reading = stub::read_response_body(settings, OS9CALL, 4, rejection);
            let (body_log, read, end, _) = lemma_first(reading, next, last, outcome);
            lemma_response_body(settings, OS9CALL, 4, rejection, body_log, read);
            assert(end.len() == 0);
            if let Ok(body) = read {
                lemma_response_frame(heard(header), OS9CALL, body);
                lemma_at_once();
                assert(heard(rest) =~= heard(header) + heard(body_log));
                assert(sent(rest) =~= seq![ACK]);
                law_number_bytes_round_trip(body);
                lemma_exchanged(settings, frame, OS9CALL, body, 0, request, rest);
            }
        } else {
            assert(last.len() == 0);
        }
    } else {
        assert(rest.len() == 0);
    }
}

/// A speed is agreed on by one exchange, before anything else is said: the
/// speed that is wanted goes to the player, and the one that is returned comes
/// from it.
pub proof fn law_speed_comes_from_the_player(
    settings: Settings,
    desired: u32,
    log: Seq<Event>,
    outcome: Result<u32, Failure>,
)
    requires
        follows(log, stub::negotiate_baud_rate(settings, desired), outcome),
    ensures
        orderly(settings, log),
        outcome matches Ok(rate) ==> exchanged(
            settings,
            request_frame(BAUDRATE, be32(desired)),
            BAUDRATE,
            be32(rate),
            0,
            log,
        ),
{
    let frame = request_frame(BAUDRATE, be32(desired));
    let whole = stub::negotiate_baud_rate(settings, desired);
    let sending = stub::send_acknowledged(settings, frame, "baud-rate request"@);
    let (request, accepted, rest, next) = lemma_first(sending, whole, log, outcome);
    lemma_send_attempts(
        settings,
        frame,
        "baud-rate request"@,
        settings.retries + 1,
        request,
        accepted,
    );
    if accepted is Ok {
        let finding = stub::expect_header(settings, BAUDRATE);
        let (header, found, last, next) = lemma_first(finding, next, rest, outcome);
        lemma_expect_header(settings, BAUDRATE, header, found);
        if found is Ok {
            let rejection = Failure::RetryLimitExceeded {
                operation: "baud-rate response"@,
                attempts: 1,
            };
            let reading = stub::read_response_body(settings, BAUDRATE, 4, rejection);
            let (body_log, read, end, _) = lemma_first(reading, next, last, outcome);
            lemma_response_body(settings, BAUDRATE, 4, rejection, body_log, read);
            assert(end.len() == 0);
            if let Ok(body) = read {
                assert(heard(header).skip(0) =~= seq![DLE, BAUDRATE]);
                lemma_response_frame(heard(header), BAUDRATE, body);
                lemma_at_once();
                assert(heard(rest) =~= heard(header) + heard(body_log));
                assert(sent(rest) =~= seq![ACK]);
                law_number_bytes_round_trip(body);
                lemma_exchanged(settings, frame, BAUDRATE, body, 0, request, rest);
            }
        } else {
            assert(last.len() == 0);
        }
    } else {
        assert(rest.len() == 0);
    }
}

/// A response that carries data is read until it arrives undamaged.
#[verifier::rlimit(40)]
proof fn lemma_read_attempts(
    settings: Settings,
    size: nat,
    attempts: nat,
    log: Seq<Event>,
    outcome: Result<Seq<u8>, Failure>,
) -> (rejections: nat)
    requires
        follows(log, stub::read_attempts(settings, size, attempts), outcome),
        size <= 0xffff,
    ensures
        orderly(settings, log),
        outcome matches Ok(data) ==> {
            &&& rejections < attempts
            &&& data.len() == size
            &&& ends(heard(log), response_frame(READ, be16(size as u16) + data))
            &&& sent(log) == rejected_then(rejections, ACK)
        },
        outcome matches Err(error) ==> (error is RetryLimitExceeded ==> sent(log) == copies(
            seq![NAK],
            attempts,
        )),
    decreases attempts,
{
    let whole = stub::read_attempts(settings, size, attempts);
    if attempts == 0 {
        assert(log.len() == 0);
        assert(sent(log) =~= Seq::empty());
        0
    } else {
        let expecting = stub::expect_header(settings, READ);
        let (header, found, rest, next) = lemma_first(expecting, whole, log, outcome);
        lemma_expect_header(settings, READ, header, found);
        if found is Err {
            assert(rest.len() == 0);
            0
        } else {
            let sizing = stub::read_exact(settings, 2);
            let (size_log, sized, rest, next) = lemma_first(sizing, next, rest, outcome);
            lemma_read_exact(settings, 2, size_log, sized);
            if sized is Err || value16(sized->Ok_0) != size {
                assert(rest.len() == 0);
                0
            } else {
                let size_bytes = sized->Ok_0;
                law_short_numbers_round_trip(0, size_bytes);
                let reading = stub::read_exact(settings, size);
                let (data_log, read, rest, next) = lemma_first(reading, next, rest, outcome);
                lemma_read_exact(settings, size, data_log, read);
                if read is Err {
                    assert(rest.len() == 0);
                    0
                } else {
                    let data = read->Ok_0;
                    let checking = stub::read_notification(settings);
                    let (check_log, check, rest, next) = lemma_first(checking, next, rest, outcome);
                    lemma_notification(settings, check_log, check);
                    if check is Err {
                        assert(rest.len() == 0);
                        0
                    } else {
                        let body = size_bytes + data;
                        assert(seq![DLE, READ] + size_bytes + data =~= seq![DLE, READ] + body);
                        let good = check->Ok_0 == xor_of(seq![DLE, READ] + body);
                        let answer = if good {
                            seq![ACK]
                        } else {
                            seq![NAK]
                        };
                        let answering = stub::send(settings, answer);
                        let (answer_log, done, last, _) = lemma_first(
                            answering,
                            next,
                            rest,
                            outcome,
                        );
                        lemma_send(settings, answer, answer_log, done);
                        let response = heard(header) + heard(size_log) + heard(data_log) + heard(
                            check_log,
                        );
                        assert(heard(log) =~= response + heard(last));
                        assert(sent(log) =~= sent(answer_log) + sent(last));
                        if done is Err {
                            assert(last.len() == 0);
                            0
                        } else if good {
                            assert(last.len() == 0);
                            assert(heard(log) =~= response_frame(READ, body));
                            assert(heard(log).skip(0) =~= response_frame(READ, body));
                            lemma_at_once();
                            assert(sent(log) =~= seq![ACK]);
                            0
                        } else {
                            let later = lemma_read_attempts(
                                settings,
                                size,
                                (attempts - 1) as nat,
                                last,
                                outcome,
                            );
                            if let Ok(data) = outcome {
                                let frame = response_frame(READ, be16(size as u16) + data);
                                lemma_ends_behind(response, heard(last), frame);
                                assert(sent(log) =~= rejected_then(later + 1, ACK));
                            }
                            later + 1
                        }
                    }
                }
            }
        }
    }
}

/// Memory is read by one exchange: the data that is returned is that of the
/// response, it is as much as was asked for, and it was received undamaged.
/// Damaged responses are rejected, as often as there are retries.
pub proof fn law_data_comes_from_the_player(
    settings: Settings,
    size: nat,
    log: Seq<Event>,
    outcome: Result<Seq<u8>, Failure>,
)
    requires
        follows(log, stub::read(settings, size), outcome),
    ensures
        orderly(settings, log),
        outcome matches Ok(data) ==> {
            &&& data.len() == size
            &&& 1 <= size <= 0xffff
            &&& exists|rejections: nat|
                rejections <= settings.retries && #[trigger] exchanged(
                    settings,
                    request_frame(READ, be16(size as u16)),
                    READ,
                    be16(size as u16) + data,
                    rejections,
                    log,
                )
        },
{
    reveal(stub::read);
    if stub::valid_chunk_size(size) {
        let frame = request_frame(READ, be16(size as u16));
        let whole = stub::read(settings, size);
        let sending = stub::send_acknowledged(settings, frame, "read request"@);
        let attempts = settings.retries + 1;
        let (request, accepted, rest, _) = lemma_first(sending, whole, log, outcome);
        lemma_send_attempts(settings, frame, "read request"@, attempts, request, accepted);
        if accepted is Ok {
            let rejections = lemma_read_attempts(settings, size, attempts, rest, outcome);
            if let Ok(data) = outcome {
                let body = be16(size as u16) + data;
                lemma_exchanged(settings, frame, READ, body, rejections, request, rest);
            }
        } else {
            assert(rest.len() == 0);
        }
    } else {
        assert(log.len() == 0);
    }
}

/// An upload that succeeds returns as many bytes as were asked for.
proof fn lemma_read_chunks(
    settings: Settings,
    data: Seq<u8>,
    left: nat,
    chunk_size: nat,
    log: Seq<Event>,
    outcome: Result<Seq<u8>, Failure>,
)
    requires
        follows(log, stub::read_chunks(settings, data, left, chunk_size), outcome),
        1 <= chunk_size <= 0xffff,
    ensures
        orderly(settings, log),
        outcome matches Ok(all) ==> all.len() == data.len() + left && received(
            settings,
            all.skip(data.len() as int),
            chunk_size,
            log,
        ) && all.take(data.len() as int) == data,
    decreases left,
{
    let whole = stub::read_chunks(settings, data, left, chunk_size);
    if left == 0 {
        assert(log.len() == 0);
        assert(data.take(data.len() as int) =~= data);
        assert(data.skip(data.len() as int) =~= Seq::empty());
    } else {
        let count = stub::chunk_length(left, chunk_size);
        let reading = stub::read(settings, count);
        let (first, read, rest, _) = lemma_first(reading, whole, log, outcome);
        law_data_comes_from_the_player(settings, count, first, read);
        if let Ok(chunk) = read {
            let remaining = (left - count) as nat;
            lemma_read_chunks(settings, data + chunk, remaining, chunk_size, rest, outcome);
            if let Ok(all) = outcome {
                let mine = all.skip(data.len() as int);
                assert(all.take(data.len() as int) =~= all.take((data + chunk).len() as int).take(
                    data.len() as int,
                ));
                assert((data + chunk).take(data.len() as int) =~= data);
                assert(mine.take(count as int) =~= all.take((data + chunk).len() as int).skip(
                    data.len() as int,
                ));
                assert((data + chunk).skip(data.len() as int) =~= chunk);
                assert(mine.skip(count as int) =~= all.skip((data + chunk).len() as int));
                assert(log.take(first.len() as int) =~= first);
                assert(log.skip(first.len() as int) =~= rest);
            }
        } else {
            assert(rest.len() == 0);
        }
    }
}

/// Data was read chunk by chunk: each chunk by an exchange of its own, in order.
pub open spec fn received(
    settings: Settings,
    data: Seq<u8>,
    chunk_size: nat,
    log: Seq<Event>,
) -> bool
    decreases data.len(),
{
    if data.len() == 0 || chunk_size == 0 {
        log.len() == 0
    } else {
        let count = stub::chunk_length(data.len(), chunk_size);
        exists|cut: int, rejections: nat|
            #![trigger log.take(cut), copies(seq![NAK], rejections)]
            {
                &&& 0 <= cut <= log.len()
                &&& rejections <= settings.retries
                &&& exchanged(
                    settings,
                    request_frame(READ, be16(count as u16)),
                    READ,
                    be16(count as u16) + data.take(count as int),
                    rejections,
                    log.take(cut),
                )
                &&& received(settings, data.skip(count as int), chunk_size, log.skip(cut))
            }
    }
}

/// A memory range is uploaded chunk by chunk, after its address was sent. The
/// data that is returned is what the responses carried, and as much as was
/// asked for.
pub proof fn law_uploads_are_complete(
    settings: Settings,
    address: u32,
    size: nat,
    chunk_size: nat,
    log: Seq<Event>,
    outcome: Result<Seq<u8>, Failure>,
)
    requires
        follows(log, stub::upload(settings, address, size, chunk_size), outcome),
    ensures
        orderly(settings, log),
        outcome matches Ok(data) ==> {
            &&& data.len() == size
            &&& exists|cut: int|
                #![trigger log.take(cut)]
                {
                    &&& 0 <= cut <= log.len()
                    &&& answered(
                        request_frame(ADDRESS, be32(address)),
                        settings.retries + 1,
                        log.take(cut),
                        Ok(()),
                    )
                    &&& received(settings, data, chunk_size, log.skip(cut))
                }
        },
{
    if stub::valid_chunk_size(chunk_size) {
        let whole = stub::upload(settings, address, size, chunk_size);
        let addressing = stub::set_address(settings, address);
        let frame = request_frame(ADDRESS, be32(address));
        let (first, addressed, rest, _) = lemma_first(addressing, whole, log, outcome);
        reveal(stub::set_address);
        lemma_send_attempts(
            settings,
            frame,
            "address request"@,
            settings.retries + 1,
            first,
            addressed,
        );
        if addressed is Ok {
            lemma_read_chunks(settings, seq![], size, chunk_size, rest, outcome);
            if let Ok(data) = outcome {
                assert(data.skip(0) =~= data);
                assert(log.take(first.len() as int) =~= first);
                assert(log.skip(first.len() as int) =~= rest);
            }
        } else {
            assert(rest.len() == 0);
        }
    } else {
        assert(log.len() == 0);
    }
}

/// Data was written chunk by chunk: each chunk by an acknowledged request of
/// its own, in order.
pub open spec fn delivered(
    settings: Settings,
    data: Seq<u8>,
    chunk_size: nat,
    log: Seq<Event>,
) -> bool
    decreases data.len(),
{
    if data.len() == 0 || chunk_size == 0 {
        log.len() == 0
    } else {
        let count = stub::chunk_length(data.len(), chunk_size);
        exists|cut: int|
            #![trigger log.take(cut)]
            {
                &&& 0 <= cut <= log.len()
                &&& answered(
                    request_frame(WRITE, be16(count as u16) + data.take(count as int)),
                    settings.retries + 1,
                    log.take(cut),
                    Ok(()),
                )
                &&& delivered(settings, data.skip(count as int), chunk_size, log.skip(cut))
            }
    }
}

/// A record of writing in chunks holds one request for each chunk.
proof fn lemma_write_chunks(
    settings: Settings,
    data: Seq<u8>,
    chunk_size: nat,
    log: Seq<Event>,
    outcome: Result<(), Failure>,
)
    requires
        follows(log, stub::write_chunks(settings, data, chunk_size), outcome),
        1 <= chunk_size <= 0xffff,
    ensures
        orderly(settings, log),
        outcome is Ok ==> delivered(settings, data, chunk_size, log),
    decreases data.len(),
{
    let whole = stub::write_chunks(settings, data, chunk_size);
    if data.len() == 0 {
        assert(log.len() == 0);
    } else {
        let count = stub::chunk_length(data.len(), chunk_size);
        let chunk = data.take(count as int);
        let frame = request_frame(WRITE, be16(count as u16) + chunk);
        let (first, written, rest, _) = lemma_first(
            stub::write(settings, chunk),
            whole,
            log,
            outcome,
        );
        reveal(stub::write);
        lemma_send_attempts(
            settings,
            frame,
            "write request"@,
            settings.retries + 1,
            first,
            written,
        );
        if written is Ok {
            lemma_write_chunks(settings, data.skip(count as int), chunk_size, rest, outcome);
            assert(log.take(first.len() as int) =~= first);
            assert(log.skip(first.len() as int) =~= rest);
        } else {
            assert(rest.len() == 0);
        }
    }
}

/// A download that succeeds has sent the address, and then all of the data,
/// chunk by chunk; and each of these requests was acknowledged.
pub proof fn law_downloads_are_complete(
    settings: Settings,
    address: u32,
    data: Seq<u8>,
    chunk_size: nat,
    log: Seq<Event>,
    outcome: Result<(), Failure>,
)
    requires
        follows(log, stub::download(settings, address, data, chunk_size), outcome),
    ensures
        orderly(settings, log),
        outcome is Ok ==> exists|cut: int|
            #![trigger log.take(cut)]
            {
                &&& 0 <= cut <= log.len()
                &&& answered(
                    request_frame(ADDRESS, be32(address)),
                    settings.retries + 1,
                    log.take(cut),
                    Ok(()),
                )
                &&& delivered(settings, data, chunk_size, log.skip(cut))
            },
{
    if stub::valid_chunk_size(chunk_size) {
        let whole = stub::download(settings, address, data, chunk_size);
        let addressing = stub::set_address(settings, address);
        let frame = request_frame(ADDRESS, be32(address));
        let (first, addressed, rest, _) = lemma_first(addressing, whole, log, outcome);
        reveal(stub::set_address);
        lemma_send_attempts(
            settings,
            frame,
            "address request"@,
            settings.retries + 1,
            first,
            addressed,
        );
        if addressed is Ok {
            lemma_write_chunks(settings, data, chunk_size, rest, outcome);
            assert(log.take(first.len() as int) =~= first);
            assert(log.skip(first.len() as int) =~= rest);
        } else {
            assert(rest.len() == 0);
        }
    } else {
        assert(log.len() == 0);
    }
}

/// The byte is one with which a CD-i endpoint announces itself: `SOH` or `DLE`
/// for the download subset of the ROM, `EM` for a full Stub.
pub open spec fn announces(byte: u8) -> bool {
    byte == SOH || byte == EM || byte == DLE
}

/// Waiting for an endpoint after some text.
proof fn lemma_await_announcement(
    settings: Settings,
    banner: Seq<u8>,
    limit: nat,
    log: Seq<Event>,
    outcome: Result<(Seq<u8>, u8), Failure>,
) -> (more: Seq<u8>)
    requires
        follows(log, stub::await_announcement(settings, banner, limit), outcome),
    ensures
        orderly(settings, log),
        outcome matches Ok((all, marker)) ==> {
            &&& all == banner + more
            &&& more.len() < limit
            &&& forall|i: int| 0 <= i < more.len() ==> !announces(#[trigger] more[i])
            &&& announces(marker)
            &&& heard(log) == more.push(marker)
            &&& sent(log) == if marker == SOH {
                seq![ACK]
            } else {
                Seq::empty()
            }
        },
        outcome matches Err(error) ==> error is Io,
    decreases limit,
{
    let whole = stub::await_announcement(settings, banner, limit);
    let nothing = Seq::<u8>::empty();
    if limit == 0 {
        assert(log.len() == 0);
        nothing
    } else {
        let read = stub::read_notification(settings);
        let (first, byte, rest, next) = lemma_first(read, whole, log, outcome);
        lemma_notification(settings, first, byte);
        match byte {
            Err(_) => {
                assert(rest.len() == 0);
                nothing
            },
            Ok(byte) => {
                if byte == SOH {
                    let answer = stub::send(settings, seq![ACK]);
                    let (second, done, last, _) = lemma_first(answer, next, rest, outcome);
                    lemma_send(settings, seq![ACK], second, done);
                    assert(last.len() == 0);
                    assert(banner + nothing =~= banner);
                    assert(heard(log) =~= nothing.push(byte));
                    assert(sent(log) =~= sent(second));
                    nothing
                } else if announces(byte) {
                    assert(rest.len() == 0);
                    assert(banner + nothing =~= banner);
                    assert(heard(log) =~= nothing.push(byte));
                    assert(sent(log) =~= nothing);
                    nothing
                } else {
                    let more = lemma_await_announcement(
                        settings,
                        banner.push(byte),
                        (limit - 1) as nat,
                        rest,
                        outcome,
                    );
                    let all = seq![byte] + more;
                    if outcome is Ok {
                        assert(banner.push(byte) + more =~= banner + all);
                        assert(heard(log) =~= all.push(outcome->Ok_0.1));
                        assert(sent(log) =~= sent(rest));
                        assert forall|i: int| 0 <= i < all.len() implies !announces(
                            #[trigger] all[i],
                        ) by {
                            if i > 0 {
                                assert(all[i] == more[i - 1]);
                            }
                        }
                    }
                    all
                }
            },
        }
    }
}

/// The text of an endpoint that announced itself is all that came before the
/// announcement, and holds none itself. `SOH` is answered with `ACK`; nothing
/// else is said.
pub proof fn law_announcement_ends_the_banner(
    settings: Settings,
    max_bytes: nat,
    log: Seq<Event>,
    outcome: Result<(Seq<u8>, u8), Failure>,
)
    requires
        follows(log, stub::wait_for_announcement(settings, max_bytes), outcome),
    ensures
        orderly(settings, log),
        outcome matches Ok((banner, marker)) ==> {
            &&& banner.len() < max_bytes
            &&& forall|i: int| 0 <= i < banner.len() ==> !announces(#[trigger] banner[i])
            &&& announces(marker)
            &&& heard(log) == banner.push(marker)
            &&& sent(log) == if marker == SOH {
                seq![ACK]
            } else {
                Seq::empty()
            }
        },
        outcome matches Err(error) ==> error is Io,
{
    let more = lemma_await_announcement(settings, seq![], max_bytes, log, outcome);
    if let Ok((banner, marker)) = outcome {
        assert(banner =~= more);
    }
}

/// A response header that arrives is never missed, whatever stands in front of
/// it: when the search for one fails, none has arrived; when it succeeds, one is
/// the last that arrived.
pub proof fn law_response_headers_are_not_missed(
    settings: Settings,
    kind: u8,
    limit: nat,
    log: Seq<Event>,
    outcome: Result<(), Failure>,
)
    requires
        follows(log, stub::read_response_header(settings, kind, limit), outcome),
        kind != DLE,
    ensures
        orderly(settings, log),
        sent(log) == Seq::<u8>::empty(),
        outcome is Ok ==> ends(heard(log), seq![DLE, kind]),
        outcome is Err ==> !holds_header(heard(log), kind),
{
    lemma_response_header(settings, kind, limit, false, log, outcome);
}

/// Progress is reported after every chunk: each report is one chunk further than the
/// one before, the last one may be less, and it tells of the whole transfer.
pub proof fn law_progress_is_reported(done: nat, chunk_size: nat)
    requires
        1 <= chunk_size,
        done <= usize::MAX,
    ensures
        ({
            let ends = chunk_ends(done, chunk_size);
            &&& done == 0 ==> ends.len() == 0
            &&& done > 0 ==> ends.len() > 0 && ends.last() == done
            &&& forall|i: int|
                0 <= i < ends.len() - 1 ==> #[trigger] ends[i] == (i + 1) * chunk_size
            &&& ends.len() > 0 ==> (ends.len() - 1) * chunk_size < done <= ends.len() * chunk_size
        }),
{
    let ends = chunk_ends(done, chunk_size);
    let count = ends.len() as int;
    let (all, size) = (done as int, chunk_size as int);
    assert(count == (all + size - 1) / size);
    assert((count - 1) * size < all <= count * size) by (nonlinear_arith)
        requires
            count == (all + size - 1) / size,
            size >= 1,
            all >= 0,
    ;
    if done == 0 {
        assert(count == 0) by (nonlinear_arith)
            requires
                count == (all + size - 1) / size,
                size >= 1,
                all == 0,
        ;
    } else {
        assert(count > 0) by (nonlinear_arith)
            requires
                all <= count * size,
                all > 0,
                size >= 1,
        ;
        assert((count - 1 + 1) * size == count * size);
    }
    assert forall|i: int| 0 <= i < ends.len() - 1 implies #[trigger] ends[i] == (i + 1)
        * chunk_size by {
        assert((i + 1) * size <= (count - 1) * size) by (nonlinear_arith)
            requires
                i + 1 <= count - 1,
                size >= 1,
        ;
        assert((i + 1) * size >= 0) by (nonlinear_arith)
            requires
                i >= 0,
                size >= 1,
        ;
    }
}

} // verus!
