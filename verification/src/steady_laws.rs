//! What a session owes on a line that works: whatever the player says and however
//! the transfers are cut up, nothing fails but for a reason that the player gave.

use vstd::prelude::*;

use crate::dialogue::{after, again, follows, turn, Dialogue};
use crate::error::Failure;
use crate::frame::{be16, request_frame, value16, xor_of, ACK, CAN, DLE, NAK, READ};
use crate::laws::{answered, lemma_send_attempts};
use crate::line::{plausible, Call, Event, Reply};
use crate::record::{
    answers, copies, ends, heard, lemma_acknowledgement, lemma_ends_behind, lemma_expect_header,
    lemma_first, lemma_notification, lemma_read_exact, lemma_send, lemma_transmit, sent, starts,
};
use crate::request_laws::{lemma_request, rejected_as};
use crate::stub;
use crate::stub::{is_acknowledgement, Settings, NOISE_LIMIT};
use crate::transport::IoErrorKind;

verus! {

/// The call did what it was for, or was interrupted and can be made again.
pub open spec fn works(event: Event) -> bool {
    again(event) || match event.reply {
        Reply::Accepted(count) => count > 0,
        Reply::Delivered(bytes) => bytes.len() > 0,
        Reply::Finished => true,
        Reply::Failed(_) => false,
    }
}

/// The line works: no call on it fails, and it does not end.
pub open spec fn steady(log: Seq<Event>) -> bool {
    forall|i: int| 0 <= i < log.len() ==> works(#[trigger] log[i])
}

/// Both parts of the record of a line that works are such.
pub proof fn lemma_steady_parts(log: Seq<Event>, first: Seq<Event>, rest: Seq<Event>)
    requires
        steady(log),
        log == first + rest,
    ensures
        steady(first),
        steady(rest),
{
    assert forall|i: int| 0 <= i < first.len() implies works(#[trigger] first[i]) by {
        assert(log[i] == first[i]);
    }
    assert forall|i: int| 0 <= i < rest.len() implies works(#[trigger] rest[i]) by {
        assert(log[first.len() + i] == rest[i]);
    }
}

/// A single call on a line that works.
proof fn lemma_steady_call(log: Seq<Event>, call: Call, reply: Reply)
    requires
        follows(log, turn(call), reply),
        steady(log),
    ensures
        works(Event { call, reply }),
        !again(Event { call, reply }),
        plausible(Event { call, reply }),
    decreases log.len(),
{
    let dialogue = turn(call);
    assert(log.len() > 0);
    if again(log[0]) {
        assert(after(dialogue, log) == after(dialogue, log.skip(1)));
        assert forall|i: int| 0 <= i < log.len() - 1 implies works(#[trigger] log.skip(1)[i]) by {
            assert(log.skip(1)[i] == log[i + 1]);
        }
        lemma_steady_call(log.skip(1), call, reply);
    } else {
        assert(after(dialogue, log) == after(Dialogue::Over(log[0].reply), log.skip(1)));
        assert(log.skip(1).len() == 0);
        assert(log[0] == (Event { call, reply }));
    }
}

/// Writing succeeds on a line that works, however little is accepted at a time.
proof fn lemma_steady_write(
    settings: Settings,
    bytes: Seq<u8>,
    log: Seq<Event>,
    outcome: Result<(), Failure>,
)
    requires
        follows(log, stub::write_all(settings, bytes), outcome),
        steady(log),
    ensures
        outcome is Ok,
    decreases bytes.len(),
{
    if bytes.len() > 0 {
        let whole = stub::write_all(settings, bytes);
        let call = Call::Write(stub::offered(settings, bytes));
        let (write, reply, rest, next) = lemma_first(turn(call), whole, log, outcome);
        lemma_steady_parts(log, write, rest);
        lemma_steady_call(write, call, reply);
        let count = reply->Accepted_0;
        let shown = bytes.take(count as int);
        let trace = stub::trace_uart(settings, "TX"@, shown);
        let (notes, _, later, next) = lemma_first(trace, next, rest, outcome);
        lemma_steady_parts(rest, notes, later);
        let pacing = stub::pace_tx_byte(settings);
        let (pause, _, last, _) = lemma_first(pacing, next, later, outcome);
        lemma_steady_parts(later, pause, last);
        lemma_steady_write(settings, bytes.skip(count as int), last, outcome);
    }
}

/// Reading succeeds on a line that works, however little arrives at a time.
pub proof fn lemma_steady_read(
    settings: Settings,
    bytes: Seq<u8>,
    left: nat,
    log: Seq<Event>,
    outcome: Result<Seq<u8>, Failure>,
)
    requires
        follows(log, stub::read_more(settings, bytes, left), outcome),
        steady(log),
    ensures
        outcome is Ok,
    decreases left,
{
    if left > 0 {
        let whole = stub::read_more(settings, bytes, left);
        let call = Call::Read(left);
        let (read, reply, rest, next) = lemma_first(turn(call), whole, log, outcome);
        lemma_steady_parts(log, read, rest);
        lemma_steady_call(read, call, reply);
        let more = reply->Delivered_0;
        let trace = stub::trace_uart(settings, "RX"@, more);
        let (notes, _, later, _) = lemma_first(trace, next, rest, outcome);
        lemma_steady_parts(rest, notes, later);
        lemma_steady_read(
            settings,
            bytes + more,
            (left - more.len()) as nat,
            later,
            outcome,
        );
    }
}

/// Sending succeeds on a line that works.
pub proof fn lemma_steady_send(
    settings: Settings,
    bytes: Seq<u8>,
    log: Seq<Event>,
    outcome: Result<(), Failure>,
)
    requires
        follows(log, stub::send(settings, bytes), outcome),
        steady(log),
    ensures
        outcome is Ok,
{
    let whole = stub::send(settings, bytes);
    let (write, written, rest, _) = lemma_first(
        stub::write_all(settings, bytes),
        whole,
        log,
        outcome,
    );
    lemma_steady_parts(log, write, rest);
    lemma_steady_write(settings, bytes, write, written);
    let (flush, reply, last, _) = lemma_first(turn(Call::Flush), stub::flush(), rest, outcome);
    lemma_steady_parts(rest, flush, last);
    lemma_steady_call(flush, Call::Flush, reply);
}

/// A frame is sent on a line that works.
proof fn lemma_steady_transmit(
    settings: Settings,
    frame: Seq<u8>,
    log: Seq<Event>,
    outcome: Result<(), Failure>,
)
    requires
        follows(log, stub::transmit(settings, frame), outcome),
        steady(log),
    ensures
        outcome is Ok,
{
    let whole = stub::transmit(settings, frame);
    let head = frame.take(1);
    let (first, done, rest, next) = lemma_first(stub::send(settings, head), whole, log, outcome);
    lemma_steady_parts(log, first, rest);
    lemma_steady_send(settings, head, first, done);
    let (pause, _, last, _) = lemma_first(turn(Call::Pause(1_000_000)), next, rest, outcome);
    lemma_steady_parts(rest, pause, last);
    lemma_steady_send(settings, frame.skip(1), last, outcome);
}

/// A byte arrives on a line that works.
pub proof fn lemma_steady_notification(
    settings: Settings,
    log: Seq<Event>,
    outcome: Result<u8, Failure>,
)
    requires
        follows(log, stub::read_notification(settings), outcome),
        steady(log),
    ensures
        outcome is Ok,
{
    let whole = stub::read_notification(settings);
    let (read, bytes, rest, _) = lemma_first(stub::read_exact(settings, 1), whole, log, outcome);
    lemma_steady_parts(log, read, rest);
    lemma_steady_read(settings, seq![], 1, read, bytes);
}

/// The failure says that too many bytes came without an answer.
pub open spec fn is_flooded(error: Failure) -> bool {
    error matches Failure::Io(fault) && fault.kind == IoErrorKind::InvalidData && fault.message
        == "received more than 4096 non-notification bytes while waiting for acknowledgement"@
}

/// An answer arrives on a line that works, unless as many bytes as may pass are
/// none.
proof fn lemma_steady_acknowledgement(
    settings: Settings,
    limit: nat,
    log: Seq<Event>,
    outcome: Result<u8, Failure>,
)
    requires
        follows(log, stub::read_acknowledgement(settings, limit), outcome),
        steady(log),
    ensures
        outcome matches Err(error) ==> {
            &&& heard(log).len() == limit
            &&& answers(heard(log)) == Seq::<u8>::empty()
            &&& is_flooded(error)
        },
    decreases limit,
{
    lemma_acknowledgement(settings, limit, log, outcome);
    if limit > 0 {
        let whole = stub::read_acknowledgement(settings, limit);
        let read = stub::read_notification(settings);
        let (first, byte, rest, _) = lemma_first(read, whole, log, outcome);
        lemma_steady_parts(log, first, rest);
        lemma_steady_notification(settings, first, byte);
        lemma_notification(settings, first, byte);
        if !is_acknowledgement(byte->Ok_0) {
            lemma_steady_acknowledgement(settings, (limit - 1) as nat, rest, outcome);
        }
    } else {
        assert(log.len() == 0);
        assert(heard(log) =~= Seq::empty());
    }
}

/// On a line that works a request comes to what the player answers: it is
/// acknowledged, cancelled, or rejected once more than there are retries. Only a
/// player that says 4096 bytes without an answer among them makes it fail
/// otherwise.
pub proof fn law_requests_come_to_their_answers(
    settings: Settings,
    frame: Seq<u8>,
    operation: Seq<char>,
    log: Seq<Event>,
    outcome: Result<(), Failure>,
)
    requires
        follows(log, stub::send_acknowledged(settings, frame, operation), outcome),
        steady(log),
        frame.len() > 0,
    ensures
        outcome is Ok <==> {
            &&& answers(heard(log)).len() > 0
            &&& answers(heard(log)).last() == 0x06
        },
        outcome == Err::<(), Failure>(Failure::Cancelled) <==> {
            &&& answers(heard(log)).len() > 0
            &&& answers(heard(log)).last() == 0x14
        },
        outcome matches Err(Failure::RetryLimitExceeded { attempts, .. }) ==> {
            &&& attempts == settings.retries + 1
            &&& answers(heard(log)) == copies(seq![0x15u8], attempts)
        },
        outcome matches Err(Failure::Io(fault)) ==> {
            &&& is_flooded(Failure::Io(fault))
            &&& heard(log).len() >= 4096
            &&& answers(heard(log).skip(heard(log).len() - 4096)) == Seq::<u8>::empty()
        },
{
    lemma_send_attempts(settings, frame, operation, settings.retries + 1, log, outcome);
    lemma_steady_attempts(settings, frame, operation, settings.retries + 1, log, outcome);
    let all = answers(heard(log));
    match outcome {
        Ok(_) => {
            assert(all.last() == ACK);
        },
        Err(Failure::Cancelled) => {
            assert(all.last() == CAN);
        },
        Err(Failure::RetryLimitExceeded { .. }) => {
            lemma_rejections(settings.retries + 1);
        },
        Err(Failure::Io(_)) => {
            lemma_rejections(all.len());
        },
        _ => {},
    }
}

/// Rejections are nothing else.
proof fn lemma_rejections(count: nat)
    ensures
        copies(seq![NAK], count).len() == count,
        count > 0 ==> copies(seq![NAK], count).last() == NAK,
    decreases count,
{
    if count > 0 {
        lemma_rejections((count - 1) as nat);
        assert(copies(seq![NAK], count) == seq![NAK] + copies(seq![NAK], (count - 1) as nat));
    }
}

/// The same for a request that can still be sent a number of times.
pub proof fn lemma_steady_attempts(
    settings: Settings,
    frame: Seq<u8>,
    operation: Seq<char>,
    attempts: nat,
    log: Seq<Event>,
    outcome: Result<(), Failure>,
)
    requires
        follows(log, stub::send_attempts(settings, frame, operation, attempts), outcome),
        steady(log),
        frame.len() > 0,
    ensures
        outcome matches Err(Failure::RetryLimitExceeded { attempts: count, .. }) ==> count
            == settings.retries + 1,
        outcome matches Err(Failure::Io(fault)) ==> {
            &&& is_flooded(Failure::Io(fault))
            &&& heard(log).len() >= 4096
            &&& answers(heard(log).skip(heard(log).len() - 4096)) == Seq::<u8>::empty()
        },
    decreases attempts,
{
    if attempts > 0 {
        let whole = stub::send_attempts(settings, frame, operation, attempts);
        let transmission = stub::transmit(settings, frame);
        let (first, transmitted, rest, next) = lemma_first(transmission, whole, log, outcome);
        lemma_steady_parts(log, first, rest);
        lemma_steady_transmit(settings, frame, first, transmitted);
        lemma_transmit(settings, frame, first, transmitted);
        let limit = NOISE_LIMIT as nat;
        let waiting = stub::read_acknowledgement(settings, limit);
        let (wait, answer, last, _) = lemma_first(waiting, next, rest, outcome);
        lemma_steady_parts(rest, wait, last);
        lemma_acknowledgement(settings, limit, wait, answer);
        lemma_steady_acknowledgement(settings, limit, wait, answer);
        if answer == Ok::<u8, Failure>(NAK) {
            lemma_steady_attempts(
                settings,
                frame,
                operation,
                (attempts - 1) as nat,
                last,
                outcome,
            );
            if outcome matches Err(Failure::Io(_)) {
                assert(heard(log) =~= heard(wait) + heard(last));
                assert(heard(log).skip(heard(log).len() - 4096) =~= heard(last).skip(
                    heard(last).len() - 4096,
                ));
            }
        } else {
            assert(last.len() == 0);
            assert(heard(last) =~= Seq::empty());
            assert(heard(log) =~= heard(wait));
            if answer is Err {
                assert(heard(log).skip(0) =~= heard(log));
            }
        }
    }
}

/// On a line that works, the header of a response that has to come at once is
/// missed only if the player says something else.
pub proof fn lemma_steady_header(
    settings: Settings,
    kind: u8,
    log: Seq<Event>,
    outcome: Result<(), Failure>,
)
    requires
        follows(log, stub::expect_header(settings, kind), outcome),
        steady(log),
    ensures
        1 <= heard(log).len() <= 2,
        outcome is Ok ==> heard(log) == seq![DLE, kind],
        outcome matches Err(error) ==> {
            ||| error is Cancelled && heard(log) == seq![CAN]
            ||| error is InvalidReadResponse && !starts(heard(log), seq![DLE, kind])
        },
{
    let whole = stub::expect_header(settings, kind);
    let read = stub::read_notification(settings);
    let (first, marker, rest, next) = lemma_first(read, whole, log, outcome);
    lemma_steady_parts(log, first, rest);
    lemma_steady_notification(settings, first, marker);
    lemma_notification(settings, first, marker);
    if marker->Ok_0 == DLE {
        let (second, byte, last, _) = lemma_first(read, next, rest, outcome);
        lemma_steady_parts(rest, second, last);
        lemma_steady_notification(settings, second, byte);
        lemma_notification(settings, second, byte);
        assert(last.len() == 0);
        assert(heard(last) =~= Seq::empty());
        assert(heard(log) =~= seq![DLE, byte->Ok_0]);
        if byte->Ok_0 != kind {
            assert(seq![DLE, kind].take(2) =~= seq![DLE, kind]);
            assert(heard(log)[1] != seq![DLE, kind].take(2)[1]);
        }
    } else {
        assert(rest.len() == 0);
        assert(heard(rest) =~= Seq::empty());
        assert(heard(log) =~= seq![marker->Ok_0]);
        assert(seq![DLE, kind].take(1)[0] == DLE);
        assert(heard(log)[0] != DLE);
    }
}

/// Why a response with data is not accepted.
pub open spec fn read_fails_as(
    settings: Settings,
    size: nat,
    attempts: nat,
    log: Seq<Event>,
    error: Failure,
) -> bool {
    match error {
        // All responses were damaged, and all were rejected.
        Failure::RetryLimitExceeded { operation, attempts: count } => {
            &&& operation == "read response"@
            &&& count == settings.retries + 1
            &&& sent(log) == copies(seq![0x15u8], attempts)
        },
        // The player cancelled.
        Failure::Cancelled => ends(heard(log), seq![0x14u8]),
        // What came, after damaged responses that were rejected, is no response
        // of this size.
        Failure::InvalidReadResponse => exists|cut: int|
            #![trigger log.skip(cut)]
            {
                &&& 0 <= cut <= log.len()
                &&& heard(log.skip(cut)).len() > 0
                &&& !starts(
                    heard(log.skip(cut)),
                    seq![0x10u8, 0x81u8] + be16(size as u16),
                )
            },
        _ => false,
    }
}

/// Responses with data on a line that works.
#[verifier::rlimit(80)]
proof fn lemma_steady_responses(
    settings: Settings,
    size: nat,
    attempts: nat,
    log: Seq<Event>,
    outcome: Result<Seq<u8>, Failure>,
)
    requires
        follows(log, stub::read_attempts(settings, size, attempts), outcome),
        steady(log),
        size <= 0xffff,
    ensures
        outcome matches Err(error) ==> read_fails_as(settings, size, attempts, log, error),
    decreases attempts,
{
    let whole = stub::read_attempts(settings, size, attempts);
    if attempts == 0 {
        assert(log.len() == 0);
        assert(sent(log) =~= Seq::empty());
    } else {
        let expecting = stub::expect_header(settings, READ);
        let (header, found, rest, next) = lemma_first(expecting, whole, log, outcome);
        lemma_steady_parts(log, header, rest);
        lemma_steady_header(settings, READ, header, found);
        lemma_expect_header(settings, READ, header, found);
        let wanted = seq![0x10u8, 0x81u8] + be16(size as u16);
        if found is Err {
            assert(rest.len() == 0);
            assert(header =~= log);
            assert(log.skip(0) =~= log);
            if outcome == Err::<Seq<u8>, Failure>(Failure::Cancelled) {
                assert(heard(log).skip(0) =~= seq![CAN]);
            } else {
                let part = heard(log);
                if starts(part, wanted) {
                    assert(wanted.take(part.len() as int) =~= seq![DLE, READ].take(
                        part.len() as int,
                    ));
                }
            }
        } else {
            let sizing = stub::read_exact(settings, 2);
            let (size_log, sized, rest, next) = lemma_first(sizing, next, rest, outcome);
            lemma_steady_parts(log, header, size_log + rest);
            lemma_steady_parts(size_log + rest, size_log, rest);
            lemma_steady_read(settings, seq![], 2, size_log, sized);
            lemma_read_exact(settings, 2, size_log, sized);
            let size_bytes = sized->Ok_0;
            if value16(size_bytes) != size {
                assert(rest.len() == 0);
                assert(heard(rest) =~= Seq::empty());
                assert(heard(log) =~= seq![DLE, READ] + size_bytes);
                assert(log.skip(0) =~= log);
                if starts(heard(log), wanted) {
                    assert(wanted.take(4) =~= wanted);
                    assert(heard(log)[2] == wanted[2] && heard(log)[3] == wanted[3]);
                    assert(size_bytes =~= be16(size as u16));
                }
            } else {
                let reading = stub::read_exact(settings, size);
                let (data_log, read, rest, next) = lemma_first(reading, next, rest, outcome);
                lemma_steady_parts(data_log + rest, data_log, rest);
                lemma_steady_read(settings, seq![], size, data_log, read);
                let checking = stub::read_notification(settings);
                let (check_log, check, rest, next) = lemma_first(checking, next, rest, outcome);
                lemma_steady_parts(check_log + rest, check_log, rest);
                lemma_steady_notification(settings, check_log, check);
                lemma_notification(settings, check_log, check);
                lemma_read_exact(settings, size, data_log, read);
                let data = read->Ok_0;
                let good = check->Ok_0 == xor_of(seq![DLE, READ] + size_bytes + data);
                let answer = if good {
                    seq![ACK]
                } else {
                    seq![NAK]
                };
                let (answer_log, done, last, _) = lemma_first(
                    stub::send(settings, answer),
                    next,
                    rest,
                    outcome,
                );
                lemma_steady_parts(rest, answer_log, last);
                lemma_steady_send(settings, answer, answer_log, done);
                lemma_send(settings, answer, answer_log, done);
                if !good {
                    lemma_steady_responses(
                        settings,
                        size,
                        (attempts - 1) as nat,
                        last,
                        outcome,
                    );
                    assert(sent(log) =~= seq![NAK] + sent(last));
                    let before = (log.len() - last.len()) as int;
                    assert(log.skip(before) =~= last);
                    if let Err(error) = outcome {
                        if error is Cancelled {
                            let front = heard(log).take(heard(log).len() - heard(last).len());
                            assert(heard(log) =~= front + heard(last));
                            lemma_ends_behind(front, heard(last), seq![CAN]);
                        }
                        if error is InvalidReadResponse {
                            let cut = choose|cut: int|
                                #![trigger last.skip(cut)]
                                {
                                    &&& 0 <= cut <= last.len()
                                    &&& heard(last.skip(cut)).len() > 0
                                    &&& !starts(heard(last.skip(cut)), wanted)
                                };
                            assert(log.skip(before + cut) =~= last.skip(cut));
                        }
                    }
                } else {
                    assert(last.len() == 0);
                }
            }
        }
    }
}

/// On a line that works memory is read, unless the player cancels, rejects the
/// request too often, answers something else, or sends one damaged response more
/// than there are retries. Damaged responses before that do no harm.
pub proof fn law_reads_fail_only_for_a_reason(
    settings: Settings,
    size: nat,
    log: Seq<Event>,
    outcome: Result<Seq<u8>, Failure>,
)
    requires
        follows(log, stub::read(settings, size), outcome),
        steady(log),
        1 <= size <= 0xffff,
    ensures
        outcome matches Err(error) ==> {
            ||| answered(
                request_frame(0x81, be16(size as u16)),
                settings.retries + 1,
                log,
                Err(error),
            ) && rejected_as("read request"@, settings, Err(error))
            ||| exists|cut: int|
                #![trigger log.skip(cut)]
                {
                    &&& 0 <= cut <= log.len()
                    &&& answered(
                        request_frame(0x81, be16(size as u16)),
                        settings.retries + 1,
                        log.take(cut),
                        Ok(()),
                    )
                    &&& read_fails_as(
                        settings,
                        size,
                        settings.retries + 1,
                        log.skip(cut),
                        error,
                    )
                }
        },
{
    reveal(stub::read);
    let frame = request_frame(0x81, be16(size as u16));
    let whole = stub::read(settings, size);
    let sending = stub::send_acknowledged(settings, frame, "read request"@);
    let attempts = settings.retries + 1;
    let (request, accepted, rest, _) = lemma_first(sending, whole, log, outcome);
    lemma_steady_parts(log, request, rest);
    lemma_request(settings, frame, "read request"@, request, accepted);
    if accepted is Ok {
        lemma_steady_responses(settings, size, attempts, rest, outcome);
        let cut = request.len() as int;
        assert(log.take(cut) =~= request);
        assert(log.skip(cut) =~= rest);
    } else {
        assert(rest.len() == 0);
        assert(request =~= log);
    }
}

} // verus!
