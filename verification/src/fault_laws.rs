//! What becomes of a call that fails: the operation ends there, and its error is
//! what the line said.

use vstd::prelude::*;

use crate::dialogue::{after, again, attempt, chain, follows, turn, Dialogue};
use crate::error::Failure;
use crate::frame::{
    be16, be32, ones, request_frame, ACK, ADDRESS, BAUDRATE, BUFFER, END, EXECUTE, NAK, OS9CALL,
    READ, REGISTERS, WRITE,
};
use crate::line::{plausible, Call, Event, Reply};
use crate::stub;
use crate::stub::Settings;
use crate::transport::IoErrorKind;

verus! {

/// The call did not do what it was for: it failed, no byte was accepted, or the
/// stream has ended.
pub open spec fn broken(reply: Reply) -> bool {
    match reply {
        Reply::Failed(_) => true,
        Reply::Accepted(count) => count == 0,
        Reply::Delivered(bytes) => bytes.len() == 0,
        Reply::Finished => false,
    }
}

/// The failure tells what the line said: its own words where it failed, and else
/// whether it did not accept anything or came to its end.
pub open spec fn tells_of(failure: Failure, reply: Reply) -> bool {
    match reply {
        Reply::Failed(fault) => failure == Failure::Io(fault),
        Reply::Accepted(_) => failure matches Failure::Io(fault) && fault.kind
            == IoErrorKind::WriteZero && fault.message == "failed to write complete UART frame"@,
        Reply::Delivered(_) => failure matches Failure::Io(fault) && fault.kind
            == IoErrorKind::UnexpectedEof && fault.message == "UART closed while reading a frame"@,
        Reply::Finished => false,
    }
}

/// Wherever a call of the dialogue breaks, the dialogue is over with a failure that
/// tells of it.
pub open spec fn heeds<A>(dialogue: Dialogue<Result<A, Failure>>) -> bool
    decreases dialogue,
{
    match dialogue {
        Dialogue::Over(_) => true,
        Dialogue::Turn(call, rest) => forall|reply: Reply|
            #![trigger rest(reply)]
            plausible(Event { call, reply }) ==> if broken(reply) {
                rest(reply) matches Dialogue::Over(Err(failure)) && tells_of(failure, reply)
            } else {
                heeds(rest(reply))
            },
    }
}

/// A dialogue that heeds what breaks is over with the first call that does, but for
/// interrupted ones, and its failure tells of it.
pub proof fn law_broken_calls_end_the_dialogue<A>(
    dialogue: Dialogue<Result<A, Failure>>,
    log: Seq<Event>,
    outcome: Result<A, Failure>,
    index: int,
)
    requires
        heeds(dialogue),
        follows(log, dialogue, outcome),
        0 <= index < log.len(),
        broken(log[index].reply),
        !again(log[index]),
    ensures
        index == log.len() - 1,
        outcome matches Err(failure) && tells_of(failure, log[index].reply),
    decreases log.len(),
{
    match dialogue {
        Dialogue::Over(_) => {},
        Dialogue::Turn(call, rest) => {
            let reply = log[0].reply;
            let later = log.skip(1);
            if again(log[0]) {
                assert(after(dialogue, log) == after(dialogue, later));
                assert(later[index - 1] == log[index]);
                law_broken_calls_end_the_dialogue(dialogue, later, outcome, index - 1);
            } else {
                assert(after(dialogue, log) == after(rest(reply), later));
                assert(plausible(Event { call, reply })) by {
                    assert(log[0] == (Event { call, reply }));
                }
                if broken(reply) {
                    assert(rest(reply) is Over);
                    assert(later.len() == 0);
                } else {
                    assert(later[index - 1] == log[index]);
                    law_broken_calls_end_the_dialogue(rest(reply), later, outcome, index - 1);
                }
            }
        },
    }
}

/// What heeds and goes on with what heeds, heeds.
pub proof fn lemma_heeds_attempt<A, B>(
    first: Dialogue<Result<A, Failure>>,
    next: spec_fn(A) -> Dialogue<Result<B, Failure>>,
)
    requires
        heeds(first),
        forall|result: A| heeds(#[trigger] next(result)),
    ensures
        heeds(attempt(first, next)),
    decreases first,
{
    match first {
        Dialogue::Over(outcome) => {
            if let Ok(result) = outcome {
                assert(heeds(next(result)));
            }
        },
        Dialogue::Turn(call, rest) => {
            let whole = attempt(first, next);
            let later = whole->Turn_1;
            assert forall|reply: Reply|
                #![trigger later(reply)]
                plausible(Event { call, reply }) implies (if broken(reply) {
                later(reply) matches Dialogue::Over(Err(failure)) && tells_of(failure, reply)
            } else {
                heeds(later(reply))
            }) by {
                assert(later(reply) == attempt(rest(reply), next));
                if !broken(reply) {
                    lemma_heeds_attempt(rest(reply), next);
                }
            }
        },
    }
}

/// The same for whatever comes next.
pub proof fn lemma_try<A, B>(first: Dialogue<Result<A, Failure>>)
    requires
        heeds(first),
    ensures
        forall|next: spec_fn(A) -> Dialogue<Result<B, Failure>>|
            (forall|result: A| heeds(#[trigger] next(result))) ==> heeds(
                #[trigger] attempt(first, next),
            ),
{
    assert forall|next: spec_fn(A) -> Dialogue<Result<B, Failure>>|
        (forall|result: A| heeds(#[trigger] next(result))) implies heeds(
        #[trigger] attempt(first, next),
    ) by {
        lemma_heeds_attempt(first, next);
    }
}

/// A call that cannot fail, and what comes next.
proof fn lemma_silent<B>(call: Call)
    requires
        call is Note || call is Pause,
    ensures
        forall|next: spec_fn(Reply) -> Dialogue<Result<B, Failure>>|
            heeds(next(Reply::Finished)) ==> heeds(#[trigger] chain(turn(call), next)),
{
    assert forall|next: spec_fn(Reply) -> Dialogue<Result<B, Failure>>|
        heeds(next(Reply::Finished)) implies heeds(#[trigger] chain(turn(call), next)) by {
        let later = chain(turn(call), next)->Turn_1;
        assert forall|reply: Reply|
            #![trigger later(reply)]
            plausible(Event { call, reply }) implies !broken(reply) && heeds(later(reply)) by {
            assert(later(reply) == chain(Dialogue::Over(reply), next));
        }
    }
}

/// Showing bytes, and what comes next.
proof fn lemma_traced<B>(
    settings: Settings,
    direction: Seq<char>,
    bytes: Seq<u8>,
    next: spec_fn(()) -> Dialogue<Result<B, Failure>>,
)
    requires
        heeds(next(())),
    ensures
        heeds(chain(stub::trace_uart(settings, direction, bytes), next)),
{
    let trace = stub::trace_uart(settings, direction, bytes);
    if settings.raw_uart_trace && bytes.len() > 0 {
        lemma_noted(Call::Note(stub::uart_line(direction, bytes)), next);
    } else {
        assert(trace == Dialogue::Over(()));
        assert(chain(trace, next) == next(()));
    }
}

/// Waiting after a transmission, and what comes next.
proof fn lemma_paced<B>(
    settings: Settings,
    next: spec_fn(()) -> Dialogue<Result<B, Failure>>,
)
    requires
        heeds(next(())),
    ensures
        heeds(chain(stub::pace_tx_byte(settings), next)),
{
    let pause = stub::pace_tx_byte(settings);
    if stub::extra_time(settings.tx_pacing) > 0 {
        lemma_noted(Call::Pause(stub::extra_time(settings.tx_pacing)), next);
    } else {
        assert(pause == Dialogue::Over(()));
        assert(chain(pause, next) == next(()));
    }
}

/// A call whose answer does not matter, and what comes next.
proof fn lemma_noted<B>(call: Call, next: spec_fn(()) -> Dialogue<Result<B, Failure>>)
    requires
        call is Note || call is Pause,
        heeds(next(())),
    ensures
        heeds(chain(chain(turn(call), |reply: Reply| Dialogue::Over(())), next)),
{
    let first = chain(turn(call), |reply: Reply| Dialogue::Over(()));
    let rest = first->Turn_1;
    let later = chain(first, next)->Turn_1;
    assert forall|reply: Reply|
        #![trigger later(reply)]
        plausible(Event { call, reply }) implies !broken(reply) && heeds(later(reply)) by {
        assert(later(reply) == chain(rest(reply), next));
        assert(rest(reply) == chain(
            Dialogue::Over(reply),
            |reply: Reply| Dialogue::<()>::Over(()),
        ));
        assert(rest(reply) == Dialogue::<()>::Over(()));
    }
}

/// Writing.
proof fn lemma_write_all(settings: Settings, bytes: Seq<u8>)
    ensures
        heeds(stub::write_all(settings, bytes)),
    decreases bytes.len(),
{
    if bytes.len() > 0 {
        let whole = stub::write_all(settings, bytes);
        let call = Call::Write(stub::offered(settings, bytes));
        let rest = whole->Turn_1;
        assert(whole is Turn && whole->Turn_0 == call);
        assert forall|reply: Reply|
            #![trigger rest(reply)]
            plausible(Event { call, reply }) implies (if broken(reply) {
            rest(reply) matches Dialogue::Over(Err(failure)) && tells_of(failure, reply)
        } else {
            heeds(rest(reply))
        }) by {
            reveal_with_fuel(chain, 3);
            if let Reply::Accepted(count) = reply {
                if count > 0 {
                    let left = bytes.skip(count as int);
                    lemma_write_all(settings, left);
                    let go_on = |_paced: ()| stub::write_all(settings, left);
                    lemma_paced(settings, go_on);
                    let pause = |_traced: ()| chain(stub::pace_tx_byte(settings), go_on);
                    lemma_traced(settings, "TX"@, bytes.take(count as int), pause);
                    assert(rest(reply) == chain(
                        stub::trace_uart(settings, "TX"@, bytes.take(count as int)),
                        pause,
                    ));
                }
            }
        }
    }
}

/// Reading.
proof fn lemma_read_more(settings: Settings, bytes: Seq<u8>, left: nat)
    ensures
        heeds(stub::read_more(settings, bytes, left)),
    decreases left,
{
    if left > 0 {
        let whole = stub::read_more(settings, bytes, left);
        let call = Call::Read(left);
        let rest = whole->Turn_1;
        assert(whole is Turn && whole->Turn_0 == call);
        assert forall|reply: Reply|
            #![trigger rest(reply)]
            plausible(Event { call, reply }) implies (if broken(reply) {
            rest(reply) matches Dialogue::Over(Err(failure)) && tells_of(failure, reply)
        } else {
            heeds(rest(reply))
        }) by {
            reveal_with_fuel(chain, 3);
            if let Reply::Delivered(more) = reply {
                if more.len() > 0 {
                    let fewer = (left - more.len()) as nat;
                    lemma_read_more(settings, bytes + more, fewer);
                    let go_on = |_traced: ()| stub::read_more(settings, bytes + more, fewer);
                    lemma_traced(settings, "RX"@, more, go_on);
                    assert(rest(reply) == chain(stub::trace_uart(settings, "RX"@, more), go_on));
                }
            }
        }
    }
}

/// Pushing out what was written.
proof fn lemma_flush()
    ensures
        heeds(stub::flush()),
{
    let rest = stub::flush()->Turn_1;
    assert forall|reply: Reply|
        #![trigger rest(reply)]
        plausible(Event { call: Call::Flush, reply }) implies (if broken(reply) {
        rest(reply) matches Dialogue::Over(Err(failure)) && tells_of(failure, reply)
    } else {
        heeds(rest(reply))
    }) by {
        reveal_with_fuel(chain, 3);
    }
}

/// Sending bytes.
proof fn lemma_send(settings: Settings, bytes: Seq<u8>)
    ensures
        heeds(stub::send(settings, bytes)),
{
    lemma_write_all(settings, bytes);
    lemma_flush();
    lemma_try::<(), ()>(stub::write_all(settings, bytes));
}

/// Sending a frame.
proof fn lemma_transmit(settings: Settings, frame: Seq<u8>)
    ensures
        heeds(stub::transmit(settings, frame)),
{
    lemma_send(settings, frame.take(1));
    lemma_send(settings, frame.skip(1));
    lemma_silent::<()>(Call::Pause(1_000_000));
    lemma_try::<(), ()>(stub::send(settings, frame.take(1)));
}

/// Reading a single byte.
proof fn lemma_notification(settings: Settings)
    ensures
        heeds(stub::read_notification(settings)),
{
    lemma_read_more(settings, seq![], 1);
    lemma_try::<Seq<u8>, u8>(stub::read_exact(settings, 1));
}

/// Waiting for an answer.
proof fn lemma_acknowledgement(settings: Settings, limit: nat)
    ensures
        heeds(stub::read_acknowledgement(settings, limit)),
    decreases limit,
{
    if limit > 0 {
        lemma_notification(settings);
        lemma_acknowledgement(settings, (limit - 1) as nat);
        lemma_try::<u8, u8>(stub::read_notification(settings));
    }
}

/// Sending a frame until it is acknowledged.
proof fn lemma_send_attempts(
    settings: Settings,
    frame: Seq<u8>,
    operation: Seq<char>,
    attempts: nat,
)
    ensures
        heeds(stub::send_attempts(settings, frame, operation, attempts)),
    decreases attempts,
{
    if attempts > 0 {
        let limit = stub::NOISE_LIMIT as nat;
        lemma_transmit(settings, frame);
        lemma_acknowledgement(settings, limit);
        lemma_send_attempts(settings, frame, operation, (attempts - 1) as nat);
        lemma_try::<u8, ()>(stub::read_acknowledgement(settings, limit));
        lemma_try::<(), ()>(stub::transmit(settings, frame));
    }
}

/// Searching for a response header.
proof fn lemma_response_header(settings: Settings, kind: u8, limit: nat)
    ensures
        heeds(stub::read_response_header(settings, kind, limit)),
        heeds(stub::read_response_kind(settings, kind, limit)),
    decreases limit,
{
    if limit > 0 {
        lemma_notification(settings);
        lemma_response_header(settings, kind, (limit - 1) as nat);
        lemma_try::<u8, ()>(stub::read_notification(settings));
        assert(heeds(stub::read_response_kind(settings, kind, limit)));
    }
}

/// Reading the body of a response.
proof fn lemma_response_body(settings: Settings, kind: u8, count: nat, rejection: Failure)
    ensures
        heeds(stub::read_response_body(settings, kind, count, rejection)),
{
    lemma_read_more(settings, seq![], count);
    lemma_notification(settings);
    lemma_send(settings, seq![ACK]);
    lemma_send(settings, seq![NAK]);
    lemma_try::<(), Seq<u8>>(stub::send(settings, seq![ACK]));
    lemma_try::<(), Seq<u8>>(stub::send(settings, seq![NAK]));
    lemma_try::<u8, Seq<u8>>(stub::read_notification(settings));
    lemma_try::<Seq<u8>, Seq<u8>>(stub::read_exact(settings, count));
}

/// Reading a response header that starts right away.
proof fn lemma_expect_header(settings: Settings, kind: u8)
    ensures
        heeds(stub::expect_header(settings, kind)),
{
    lemma_notification(settings);
    lemma_try::<u8, ()>(stub::read_notification(settings));
}

/// Sending a request.
proof fn lemma_acknowledged(settings: Settings, frame: Seq<u8>, operation: Seq<char>)
    ensures
        heeds(stub::send_acknowledged(settings, frame, operation)),
{
    lemma_send_attempts(settings, frame, operation, settings.retries + 1);
}

/// Asking for a buffer.
pub proof fn lemma_allocate_buffer(settings: Settings, size: nat)
    ensures
        heeds(stub::allocate_buffer(settings, size)),
{
    reveal(stub::allocate_buffer);
    let frame = request_frame(BUFFER, be16(size as u16));
    let limit = stub::NOISE_LIMIT as nat;
    lemma_acknowledged(settings, frame, "buffer request"@);
    lemma_response_header(settings, BUFFER, limit);
    lemma_response_body(settings, BUFFER, 6, Failure::InvalidReadResponse);
    lemma_try::<Seq<u8>, (usize, u32)>(
        stub::read_response_body(settings, BUFFER, 6, Failure::InvalidReadResponse),
    );
    lemma_try::<(), (usize, u32)>(stub::read_response_header(settings, BUFFER, limit));
    lemma_try::<(), (usize, u32)>(stub::send_acknowledged(settings, frame, "buffer request"@));
}

/// Making an OS-9 call.
pub proof fn lemma_os9_call(settings: Settings, call: u16, result_mask: u32)
    ensures
        heeds(stub::os9_call(settings, call, result_mask)),
{
    reveal(stub::os9_call);
    let frame = request_frame(OS9CALL, be16(call) + be32(result_mask));
    let limit = stub::NOISE_LIMIT as nat;
    lemma_acknowledged(settings, frame, "OS-9 call request"@);
    lemma_response_header(settings, OS9CALL, limit);
    lemma_response_body(settings, OS9CALL, 4, Failure::InvalidReadResponse);
    lemma_try::<Seq<u8>, u32>(
        stub::read_response_body(settings, OS9CALL, 4, Failure::InvalidReadResponse),
    );
    lemma_try::<(), u32>(stub::read_response_header(settings, OS9CALL, limit));
    lemma_try::<(), u32>(stub::send_acknowledged(settings, frame, "OS-9 call request"@));
}

/// Asking for a baud rate.
proof fn lemma_negotiate(settings: Settings, desired: u32)
    ensures
        heeds(stub::negotiate_baud_rate(settings, desired)),
{
    let frame = request_frame(BAUDRATE, be32(desired));
    let rejection = Failure::RetryLimitExceeded { operation: "baud-rate response"@, attempts: 1 };
    lemma_acknowledged(settings, frame, "baud-rate request"@);
    lemma_expect_header(settings, BAUDRATE);
    lemma_response_body(settings, BAUDRATE, 4, rejection);
    lemma_try::<Seq<u8>, u32>(stub::read_response_body(settings, BAUDRATE, 4, rejection));
    lemma_try::<(), u32>(stub::expect_header(settings, BAUDRATE));
    lemma_try::<(), u32>(stub::send_acknowledged(settings, frame, "baud-rate request"@));
}

/// Writing data.
pub proof fn lemma_write(settings: Settings, data: Seq<u8>)
    ensures
        heeds(stub::write(settings, data)),
{
    reveal(stub::write);
    let frame = request_frame(WRITE, be16(data.len() as u16) + data);
    lemma_acknowledged(settings, frame, "write request"@);
}

/// Writing data in chunks.
proof fn lemma_write_chunks(settings: Settings, data: Seq<u8>, chunk_size: nat)
    ensures
        heeds(stub::write_chunks(settings, data, chunk_size)),
    decreases data.len(),
{
    if data.len() > 0 && chunk_size > 0 {
        let count = stub::chunk_length(data.len(), chunk_size) as int;
        lemma_write(settings, data.take(count));
        lemma_write_chunks(settings, data.skip(count), chunk_size);
        lemma_try::<(), ()>(stub::write(settings, data.take(count)));
    }
}

/// Selecting an address or registers.
pub proof fn lemma_select(settings: Settings, number: u32)
    ensures
        heeds(stub::set_address(settings, number)),
        heeds(stub::select_registers(settings, number)),
{
    reveal(stub::set_address);
    reveal(stub::select_registers);
    lemma_acknowledged(settings, request_frame(ADDRESS, be32(number)), "address request"@);
    lemma_acknowledged(settings, request_frame(REGISTERS, be32(number)), "register request"@);
}

/// Setting registers.
pub proof fn lemma_set_registers(settings: Settings, mask: u32, values: Seq<u32>)
    ensures
        heeds(stub::set_registers(settings, mask, values)),
{
    reveal(stub::set_registers);
    if values.len() == ones(mask) {
        lemma_select(settings, mask);
        lemma_write(settings, stub::be32_list(values));
        lemma_try::<(), ()>(stub::select_registers(settings, mask));
    }
}

/// Reading a response.
proof fn lemma_read_attempts(settings: Settings, size: nat, attempts: nat)
    ensures
        heeds(stub::read_attempts(settings, size, attempts)),
    decreases attempts,
{
    if attempts > 0 {
        lemma_read_attempts(settings, size, (attempts - 1) as nat);
        lemma_expect_header(settings, READ);
        lemma_read_more(settings, seq![], 2);
        lemma_read_more(settings, seq![], size);
        lemma_notification(settings);
        lemma_send(settings, seq![ACK]);
        lemma_send(settings, seq![NAK]);
        lemma_try::<(), Seq<u8>>(stub::send(settings, seq![ACK]));
        lemma_try::<(), Seq<u8>>(stub::send(settings, seq![NAK]));
        lemma_try::<u8, Seq<u8>>(stub::read_notification(settings));
        lemma_try::<Seq<u8>, Seq<u8>>(stub::read_exact(settings, size));
        lemma_try::<Seq<u8>, Seq<u8>>(stub::read_exact(settings, 2));
        lemma_try::<(), Seq<u8>>(stub::expect_header(settings, READ));
    }
}

/// Reading data.
pub proof fn lemma_read(settings: Settings, size: nat)
    ensures
        heeds(stub::read(settings, size)),
{
    reveal(stub::read);
    let frame = request_frame(READ, be16(size as u16));
    lemma_acknowledged(settings, frame, "read request"@);
    lemma_read_attempts(settings, size, settings.retries + 1);
    lemma_try::<(), Seq<u8>>(stub::send_acknowledged(settings, frame, "read request"@));
}

/// Reading data in chunks.
proof fn lemma_read_chunks(settings: Settings, data: Seq<u8>, left: nat, chunk_size: nat)
    ensures
        heeds(stub::read_chunks(settings, data, left, chunk_size)),
    decreases left,
{
    if left > 0 && chunk_size > 0 {
        let count = stub::chunk_length(left, chunk_size);
        lemma_read(settings, count);
        assert forall|chunk: Seq<u8>| heeds(
            stub::read_chunks(
                settings,
                #[trigger] (data + chunk),
                (left - count) as nat,
                chunk_size,
            ),
        ) by {
            lemma_read_chunks(settings, data + chunk, (left - count) as nat, chunk_size);
        }
        lemma_try::<Seq<u8>, Seq<u8>>(stub::read(settings, count));
    }
}

/// Waiting for an announcement.
proof fn lemma_await_announcement(settings: Settings, banner: Seq<u8>, limit: nat)
    ensures
        heeds(stub::await_announcement(settings, banner, limit)),
    decreases limit,
{
    if limit > 0 {
        lemma_notification(settings);
        lemma_send(settings, seq![ACK]);
        lemma_try::<(), (Seq<u8>, u8)>(stub::send(settings, seq![ACK]));
        assert forall|byte: u8| heeds(
            stub::await_announcement(settings, #[trigger] banner.push(byte), (limit - 1) as nat),
        ) by {
            lemma_await_announcement(settings, banner.push(byte), (limit - 1) as nat);
        }
        lemma_try::<u8, (Seq<u8>, u8)>(stub::read_notification(settings));
    }
}

/// Every operation of a session heeds what breaks: it ends with the first call that
/// does, and its failure is what the line said.
pub proof fn law_broken_calls_end_every_operation(
    settings: Settings,
    address: u32,
    data: Seq<u8>,
    size: nat,
    chunk_size: nat,
    mask: u32,
    values: Seq<u32>,
    call: u16,
    result_mask: u32,
    desired: u32,
)
    ensures
        heeds(stub::set_address(settings, address)),
        heeds(stub::write(settings, data)),
        heeds(stub::allocate_buffer(settings, size)),
        heeds(stub::select_registers(settings, mask)),
        heeds(stub::set_registers(settings, mask, values)),
        heeds(stub::os9_call(settings, call, result_mask)),
        heeds(stub::download(settings, address, data, chunk_size)),
        heeds(stub::read(settings, size)),
        heeds(stub::upload(settings, address, size, chunk_size)),
        heeds(stub::negotiate_baud_rate(settings, desired)),
        heeds(stub::execute(settings, address)),
        heeds(stub::wait_for_execution_end(settings)),
        heeds(stub::end(settings)),
        heeds(stub::wait_for_announcement(settings, size)),
        heeds(stub::wait_for_stub(settings, size)),
{
    lemma_select(settings, address);
    lemma_select(settings, mask);
    lemma_write(settings, data);
    lemma_allocate_buffer(settings, size);
    lemma_set_registers(settings, mask, values);
    lemma_os9_call(settings, call, result_mask);
    lemma_read(settings, size);
    lemma_negotiate(settings, desired);
    lemma_acknowledged(settings, request_frame(EXECUTE, be32(address)), "execute request"@);
    lemma_acknowledged(settings, request_frame(END, seq![]), "end request"@);
    lemma_notification(settings);
    lemma_try::<u8, ()>(stub::read_notification(settings));
    lemma_write_chunks(settings, data, chunk_size);
    lemma_try::<(), ()>(stub::set_address(settings, address));
    lemma_read_chunks(settings, seq![], size, chunk_size);
    lemma_try::<(), Seq<u8>>(stub::set_address(settings, address));
    lemma_await_announcement(settings, seq![], size);
    lemma_try::<(Seq<u8>, u8), Seq<u8>>(stub::wait_for_announcement(settings, size));
}

} // verus!
