//! What a session owes when the player has accepted a request and is to respond to
//! it: on a line that works, nothing but the player makes the operation fail.

use vstd::prelude::*;

use crate::dialogue::follows;
use crate::error::Failure;
use crate::frame::{be16, be32, request_frame, xor_of, ACK, CAN, DLE, NAK};
use crate::laws::answered;
use crate::line::Event;
use crate::record::{
    ends, heard, holds_header, lemma_ends_behind, lemma_expect_header, lemma_first,
    lemma_notification, lemma_response_body, lemma_response_header, sent, starts,
};
use crate::request_laws::{lemma_request, rejected_as};
use crate::steady_laws::{
    lemma_steady_header, lemma_steady_notification, lemma_steady_parts, lemma_steady_read,
    lemma_steady_send, steady,
};
use crate::stub;
use crate::stub::{Settings, NOISE_LIMIT};

verus! {

/// On a line that works, the search for a header fails only if the player cancels
/// or says as many bytes as may pass.
proof fn lemma_steady_search(
    settings: Settings,
    kind: u8,
    limit: nat,
    marked: bool,
    log: Seq<Event>,
    outcome: Result<(), Failure>,
)
    requires
        follows(
            log,
            if marked {
                stub::read_response_kind(settings, kind, limit)
            } else {
                stub::read_response_header(settings, kind, limit)
            },
            outcome,
        ),
        steady(log),
        kind != DLE,
    ensures
        outcome matches Err(error) ==> {
            ||| error is Cancelled && ends(heard(log), seq![CAN])
            ||| error is InvalidReadResponse && heard(log).len() >= limit
        },
    decreases
            limit,
            if marked {
                0int
            } else {
                1int
            },
{
    if limit == 0 {
        assert(log.len() == 0);
    } else {
        let whole = if marked {
            stub::read_response_kind(settings, kind, limit)
        } else {
            stub::read_response_header(settings, kind, limit)
        };
        let reading = stub::read_notification(settings);
        let (first, read, rest, _) = lemma_first(reading, whole, log, outcome);
        lemma_steady_parts(log, first, rest);
        lemma_steady_notification(settings, first, read);
        lemma_notification(settings, first, read);
        let byte = read->Ok_0;
        assert(heard(log) =~= heard(first) + heard(rest));
        if marked {
            if byte == kind {
                assert(rest.len() == 0);
            } else if byte == DLE {
                lemma_steady_search(settings, kind, (limit - 1) as nat, true, rest, outcome);
            } else {
                lemma_steady_search(settings, kind, (limit - 1) as nat, false, rest, outcome);
            }
        } else if byte == CAN {
            assert(rest.len() == 0);
            assert(heard(rest) =~= Seq::empty());
            assert(heard(log) =~= seq![CAN]);
            assert(heard(log).skip(0) =~= seq![CAN]);
            assert(ends(heard(log), seq![CAN]));
        } else if byte == DLE {
            lemma_steady_search(settings, kind, limit, true, rest, outcome);
        } else {
            lemma_steady_search(settings, kind, (limit - 1) as nat, false, rest, outcome);
        }
        if outcome matches Err(error) && error is Cancelled && (marked || byte != CAN) {
            lemma_ends_behind(heard(first), heard(rest), seq![CAN]);
        }
    }
}

/// On a line that works, the body of a response is refused only if it is damaged.
proof fn lemma_steady_body(
    settings: Settings,
    kind: u8,
    count: nat,
    rejection: Failure,
    log: Seq<Event>,
    outcome: Result<Seq<u8>, Failure>,
)
    requires
        follows(log, stub::read_response_body(settings, kind, count, rejection), outcome),
        steady(log),
        !(rejection is Io),
    ensures
        outcome matches Err(error) ==> {
            &&& error == rejection
            &&& damaged(kind, count, log)
        },
{
    lemma_response_body(settings, kind, count, rejection, log, outcome);
    let whole = stub::read_response_body(settings, kind, count, rejection);
    let reading = stub::read_exact(settings, count);
    let (first, read, rest, next) = lemma_first(reading, whole, log, outcome);
    lemma_steady_parts(log, first, rest);
    lemma_steady_read(settings, seq![], count, first, read);
    let checking = stub::read_notification(settings);
    let (second, check, last, next) = lemma_first(checking, next, rest, outcome);
    lemma_steady_parts(rest, second, last);
    lemma_steady_notification(settings, second, check);
    let good = check->Ok_0 == xor_of(seq![DLE, kind] + read->Ok_0);
    let answer = if good {
        seq![ACK]
    } else {
        seq![NAK]
    };
    let (third, done, end, _) = lemma_first(
        stub::send(settings, answer),
        next,
        last,
        outcome,
    );
    lemma_steady_parts(last, third, end);
    lemma_steady_send(settings, answer, third, done);
    assert(end.len() == 0);
    if outcome is Err {
        let all = seq![DLE, kind] + heard(log);
        let front = seq![DLE, kind] + heard(log).drop_last();
        assert(all.drop_last() =~= front);
        let (one, other) = (xor_of(front), all.last());
        assert((one ^ other == 0) == (one == other)) by (bit_vector);
    }
}

/// A body of this length came with a wrong check byte, and was rejected.
pub open spec fn damaged(kind: u8, count: nat, log: Seq<Event>) -> bool {
    &&& heard(log).len() == count + 1
    &&& xor_of(seq![0x10u8, kind] + heard(log)) != 0
    &&& sent(log) == seq![0x15u8]
}

/// Why the response to an accepted request is not taken, if it may come behind other
/// bytes: the player cancelled, said 4096 bytes without a header among them, or sent
/// a damaged response, which was rejected.
pub open spec fn response_fails_as(
    kind: u8,
    count: nat,
    log: Seq<Event>,
    error: Failure,
) -> bool {
    ||| {
        &&& error is Cancelled
        &&& ends(heard(log), seq![0x14u8])
        &&& !holds_header(heard(log), kind)
        &&& sent(log).len() == 0
    }
    ||| {
        &&& error is InvalidReadResponse
        &&& heard(log).len() >= 4096
        &&& !holds_header(heard(log), kind)
        &&& sent(log).len() == 0
    }
    ||| {
        &&& error is InvalidReadResponse
        &&& exists|cut: int|
            #![trigger log.skip(cut)]
            0 <= cut <= log.len() && ends(heard(log.take(cut)), seq![0x10u8, kind]) && damaged(
                kind,
                count,
                log.skip(cut),
            )
    }
}

/// A request was not accepted, or the response to it was not taken, for a reason
/// that the player gave.
pub open spec fn fails_for_a_reason(
    settings: Settings,
    frame: Seq<u8>,
    operation: Seq<char>,
    kind: u8,
    count: nat,
    log: Seq<Event>,
    error: Failure,
) -> bool {
    ||| answered(frame, settings.retries + 1, log, Err(error)) && rejected_as(
        operation,
        settings,
        Err(error),
    )
    ||| exists|cut: int|
        #![trigger log.skip(cut)]
        0 <= cut <= log.len() && answered(
            frame,
            settings.retries + 1,
            log.take(cut),
            Ok(()),
        ) && response_fails_as(kind, count, log.skip(cut), error)
}

/// On a line that works a buffer is allocated, unless the player cancels, rejects
/// the request too often, does not respond, or sends a damaged response.
pub proof fn law_buffers_fail_only_for_a_reason(
    settings: Settings,
    size: nat,
    log: Seq<Event>,
    outcome: Result<(usize, u32), Failure>,
)
    requires
        follows(log, stub::allocate_buffer(settings, size), outcome),
        steady(log),
        1 <= size <= 0xffff,
    ensures
        outcome matches Err(error) ==> fails_for_a_reason(
            settings,
            request_frame(0x82, be16(size as u16)),
            "buffer request"@,
            0x82,
            6,
            log,
            error,
        ),
{
    reveal(stub::allocate_buffer);
    if outcome is Err {
        let frame = request_frame(0x82, be16(size as u16));
        let whole = stub::allocate_buffer(settings, size);
        let operation = "buffer request"@;
        let sending = stub::send_acknowledged(settings, frame, operation);
        let (request, accepted, rest, next) = lemma_first(sending, whole, log, outcome);
        lemma_steady_parts(log, request, rest);
        lemma_request(settings, frame, operation, request, accepted);
        if accepted is Ok {
            let limit = NOISE_LIMIT as nat;
            let rejection = Failure::InvalidReadResponse;
            let finding = stub::read_response_header(settings, 0x82, limit);
            let (header, found, last, next) = lemma_first(finding, next, rest, outcome);
            lemma_steady_parts(rest, header, last);
            lemma_response_header(settings, 0x82, limit, false, header, found);
            lemma_steady_search(settings, 0x82, limit, false, header, found);
            if found is Ok {
                let reading = stub::read_response_body(settings, 0x82, 6, rejection);
                let (body, read, end, _) = lemma_first(reading, next, last, outcome);
                assert(end.len() == 0);
                assert(body =~= last);
                lemma_steady_body(settings, 0x82, 6, rejection, last, read);
                assert(rest.take(header.len() as int) =~= header);
                assert(rest.skip(header.len() as int) =~= last);
            } else {
                assert(last.len() == 0);
                assert(header =~= rest);
            }
            assert(log.take(request.len() as int) =~= request);
            assert(log.skip(request.len() as int) =~= rest);
            assert(response_fails_as(0x82, 6, rest, outcome->Err_0));
        } else {
            assert(rest.len() == 0);
            assert(request =~= log);
        }
    }
}

/// On a line that works an OS-9 call is made, unless the player cancels, rejects
/// the request too often, does not respond, or sends a damaged response.
pub proof fn law_calls_fail_only_for_a_reason(
    settings: Settings,
    call: u16,
    result_mask: u32,
    log: Seq<Event>,
    outcome: Result<u32, Failure>,
)
    requires
        follows(log, stub::os9_call(settings, call, result_mask), outcome),
        steady(log),
    ensures
        outcome matches Err(error) ==> fails_for_a_reason(
            settings,
            request_frame(0x84, be16(call) + be32(result_mask)),
            "OS-9 call request"@,
            0x84,
            4,
            log,
            error,
        ),
{
    reveal(stub::os9_call);
    if outcome is Err {
        let frame = request_frame(0x84, be16(call) + be32(result_mask));
        let whole = stub::os9_call(settings, call, result_mask);
        let operation = "OS-9 call request"@;
        let sending = stub::send_acknowledged(settings, frame, operation);
        let (request, accepted, rest, next) = lemma_first(sending, whole, log, outcome);
        lemma_steady_parts(log, request, rest);
        lemma_request(settings, frame, operation, request, accepted);
        if accepted is Ok {
            let limit = NOISE_LIMIT as nat;
            let rejection = Failure::InvalidReadResponse;
            let finding = stub::read_response_header(settings, 0x84, limit);
            let (header, found, last, next) = lemma_first(finding, next, rest, outcome);
            lemma_steady_parts(rest, header, last);
            lemma_response_header(settings, 0x84, limit, false, header, found);
            lemma_steady_search(settings, 0x84, limit, false, header, found);
            if found is Ok {
                let reading = stub::read_response_body(settings, 0x84, 4, rejection);
                let (body, read, end, _) = lemma_first(reading, next, last, outcome);
                assert(end.len() == 0);
                assert(body =~= last);
                lemma_steady_body(settings, 0x84, 4, rejection, last, read);
                assert(rest.take(header.len() as int) =~= header);
                assert(rest.skip(header.len() as int) =~= last);
            } else {
                assert(last.len() == 0);
                assert(header =~= rest);
            }
            assert(log.take(request.len() as int) =~= request);
            assert(log.skip(request.len() as int) =~= rest);
            assert(response_fails_as(0x84, 4, rest, outcome->Err_0));
        } else {
            assert(rest.len() == 0);
            assert(request =~= log);
        }
    }
}

/// Why the response with a speed is not taken: the player cancelled, said something
/// else, or sent a damaged response, which was rejected.
pub open spec fn speed_fails_as(log: Seq<Event>, error: Failure) -> bool {
    ||| error is Cancelled && heard(log) == seq![0x14u8] && sent(log).len() == 0
    ||| {
        &&& error is InvalidReadResponse
        &&& 1 <= heard(log).len() <= 2
        &&& !starts(heard(log), seq![0x10u8, 0x80u8])
        &&& sent(log).len() == 0
    }
    ||| {
        &&& error == Failure::RetryLimitExceeded { operation: "baud-rate response"@, attempts: 1 }
        &&& exists|cut: int|
            #![trigger log.skip(cut)]
            0 <= cut <= log.len() && heard(log.take(cut)) == seq![0x10u8, 0x80u8] && damaged(
                0x80,
                4,
                log.skip(cut),
            )
    }
}

/// On a line that works a speed is agreed on, unless the player cancels, rejects
/// the request too often, responds with something else, or sends a damaged response.
pub proof fn law_agreements_fail_only_for_a_reason(
    settings: Settings,
    desired: u32,
    log: Seq<Event>,
    outcome: Result<u32, Failure>,
)
    requires
        follows(log, stub::negotiate_baud_rate(settings, desired), outcome),
        steady(log),
    ensures
        outcome matches Err(error) ==> {
            let frame = request_frame(0x80, be32(desired));
            ||| answered(frame, settings.retries + 1, log, Err(error)) && rejected_as(
                "baud-rate request"@,
                settings,
                Err(error),
            )
            ||| exists|cut: int|
                #![trigger log.skip(cut)]
                0 <= cut <= log.len() && answered(
                    frame,
                    settings.retries + 1,
                    log.take(cut),
                    Ok(()),
                ) && speed_fails_as(log.skip(cut), error)
        },
{
    if outcome is Err {
        let frame = request_frame(0x80, be32(desired));
        let whole = stub::negotiate_baud_rate(settings, desired);
        let operation = "baud-rate request"@;
        let sending = stub::send_acknowledged(settings, frame, operation);
        let (request, accepted, rest, next) = lemma_first(sending, whole, log, outcome);
        lemma_steady_parts(log, request, rest);
        lemma_request(settings, frame, operation, request, accepted);
        if accepted is Ok {
            let rejection = Failure::RetryLimitExceeded {
                operation: "baud-rate response"@,
                attempts: 1,
            };
            let finding = stub::expect_header(settings, 0x80);
            let (header, found, last, next) = lemma_first(finding, next, rest, outcome);
            lemma_steady_parts(rest, header, last);
            lemma_expect_header(settings, 0x80, header, found);
            lemma_steady_header(settings, 0x80, header, found);
            if found is Ok {
                let reading = stub::read_response_body(settings, 0x80, 4, rejection);
                let (body, read, end, _) = lemma_first(reading, next, last, outcome);
                assert(end.len() == 0);
                assert(body =~= last);
                lemma_steady_body(settings, 0x80, 4, rejection, last, read);
                assert(rest.take(header.len() as int) =~= header);
                assert(rest.skip(header.len() as int) =~= last);
            } else {
                assert(last.len() == 0);
                assert(header =~= rest);
            }
            assert(log.take(request.len() as int) =~= request);
            assert(log.skip(request.len() as int) =~= rest);
            assert(speed_fails_as(rest, outcome->Err_0));
        } else {
            assert(rest.len() == 0);
            assert(request =~= log);
        }
    }
}

} // verus!
