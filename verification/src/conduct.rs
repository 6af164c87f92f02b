//! How a session conducts itself, whatever it is asked to do: how many bytes it
//! offers at once, and what a trace of the line adds.

use vstd::prelude::*;

use crate::dialogue::{after, again, attempt, chain, follows, turn, Dialogue};
use crate::error::Failure;
use crate::frame::{
    be16, be32, ones, request_frame, ACK, ADDRESS, BAUDRATE, BUFFER, END, EXECUTE, NAK, OS9CALL,
    READ, REGISTERS, WRITE,
};
use crate::line::{plausible, Call, Event, Reply};
use crate::stub;
use crate::stub::{uart_line, Settings};

verus! {

/// The call keeps to the pacing: while transmission is slowed, bytes are offered
/// one at a time.
pub open spec fn paced(slowed: bool, call: Call) -> bool {
    slowed ==> (call matches Call::Write(bytes) ==> bytes.len() == 1)
}

/// The line that a trace shows for a call: the bytes that were accepted or
/// delivered, if any were.
pub open spec fn trace_line(call: Call, reply: Reply) -> Option<Seq<char>> {
    match (call, reply) {
        (Call::Write(bytes), Reply::Accepted(count)) => if 0 < count <= bytes.len() {
            Some(uart_line("TX"@, bytes.take(count as int)))
        } else {
            None
        },
        (Call::Read(room), Reply::Delivered(bytes)) => if 0 < bytes.len() <= room {
            Some(uart_line("RX"@, bytes))
        } else {
            None
        },
        _ => None,
    }
}

/// The two dialogues are the same, but that one of them shows every byte that is
/// transferred: right after the call that transferred it, and once. Both keep to
/// the pacing.
pub open spec fn twins<A>(slowed: bool, quiet: Dialogue<A>, traced: Dialogue<A>) -> bool
    decreases quiet, 0int,
{
    match (quiet, traced) {
        (Dialogue::Over(one), Dialogue::Over(other)) => one == other,
        (Dialogue::Turn(call, rest), Dialogue::Turn(same, traced_rest)) => {
            &&& call == same
            &&& paced(slowed, call)
            &&& forall|reply: Reply|
                #![trigger rest(reply)]
                plausible(Event { call, reply }) ==> matching(
                    slowed,
                    rest(reply),
                    traced_rest(reply),
                    trace_line(call, reply),
                )
        },
        _ => false,
    }
}

/// The same, after the traced dialogue has shown a line, if there is one to show.
pub open spec fn matching<A>(
    slowed: bool,
    quiet: Dialogue<A>,
    traced: Dialogue<A>,
    line: Option<Seq<char>>,
) -> bool
    decreases quiet, 1int,
{
    match line {
        None => twins(slowed, quiet, traced),
        Some(line) => match traced {
            Dialogue::Turn(Call::Note(text), rest) => text == line && twins(
                slowed,
                quiet,
                rest(Reply::Finished),
            ),
            _ => false,
        },
    }
}

/// The settings are the same, but that one of them has the line traced.
pub open spec fn differ_in_trace(quiet: Settings, traced: Settings) -> bool {
    !quiet.raw_uart_trace && traced == (Settings { raw_uart_trace: true, ..quiet })
}

/// Transmission is slowed.
pub open spec fn slowed(settings: Settings) -> bool {
    settings.tx_pacing is Some
}

/// Twins that go on like twins are twins.
pub proof fn lemma_twins_chain<A, B>(
    slow: bool,
    quiet: Dialogue<A>,
    traced: Dialogue<A>,
    next: spec_fn(A) -> Dialogue<B>,
    traced_next: spec_fn(A) -> Dialogue<B>,
)
    requires
        twins(slow, quiet, traced),
        forall|outcome: A| twins(slow, #[trigger] next(outcome), traced_next(outcome)),
    ensures
        twins(slow, chain(quiet, next), chain(traced, traced_next)),
    decreases quiet,
{
    match (quiet, traced) {
        (Dialogue::Over(outcome), Dialogue::Over(_)) => {
            assert(twins(slow, next(outcome), traced_next(outcome)));
        },
        (Dialogue::Turn(call, rest), Dialogue::Turn(_, traced_rest)) => {
            let later = chain(quiet, next)->Turn_1;
            let traced_later = chain(traced, traced_next)->Turn_1;
            assert forall|reply: Reply|
                #![trigger later(reply)]
                plausible(Event { call, reply }) implies matching(
                slow,
                later(reply),
                traced_later(reply),
                trace_line(call, reply),
            ) by {
                assert(later(reply) == chain(rest(reply), next));
                assert(traced_later(reply) == chain(traced_rest(reply), traced_next));
                assert(matching(slow, rest(reply), traced_rest(reply), trace_line(call, reply)));
                match trace_line(call, reply) {
                    None => {
                        lemma_twins_chain(
                            slow,
                            rest(reply),
                            traced_rest(reply),
                            next,
                            traced_next,
                        );
                    },
                    Some(_) => {
                        let after_note = traced_rest(reply)->Turn_1;
                        lemma_twins_chain(
                            slow,
                            rest(reply),
                            after_note(Reply::Finished),
                            next,
                            traced_next,
                        );
                    },
                }
            }
        },
        _ => {},
    }
}

/// The same for whatever comes next.
pub proof fn lemma_then<A, B>(slow: bool, quiet: Dialogue<A>, traced: Dialogue<A>)
    requires
        twins(slow, quiet, traced),
    ensures
        forall|next: spec_fn(A) -> Dialogue<B>, traced_next: spec_fn(A) -> Dialogue<B>|
            (forall|outcome: A| twins(slow, #[trigger] next(outcome), traced_next(outcome)))
                ==> twins(
                slow,
                #[trigger] chain(quiet, next),
                #[trigger] chain(traced, traced_next),
            ),
{
    assert forall|next: spec_fn(A) -> Dialogue<B>, traced_next: spec_fn(A) -> Dialogue<B>|
        (forall|outcome: A| twins(slow, #[trigger] next(outcome), traced_next(outcome))) implies
        twins(slow, #[trigger] chain(quiet, next), #[trigger] chain(traced, traced_next)) by {
        lemma_twins_chain(slow, quiet, traced, next, traced_next);
    }
}

/// A single call, and what comes next.
pub proof fn lemma_call<B>(slow: bool, call: Call)
    requires
        paced(slow, call),
    ensures
        forall|next: spec_fn(Reply) -> Dialogue<B>, traced_next: spec_fn(Reply) -> Dialogue<B>|
            (forall|reply: Reply|
                #![trigger next(reply)]
                plausible(Event { call, reply }) ==> matching(
                    slow,
                    next(reply),
                    traced_next(reply),
                    trace_line(call, reply),
                )) ==> twins(
                slow,
                #[trigger] chain(turn(call), next),
                #[trigger] chain(turn(call), traced_next),
            ),
{
    assert forall|next: spec_fn(Reply) -> Dialogue<B>, traced_next: spec_fn(Reply) -> Dialogue<B>|
        (forall|reply: Reply|
            #![trigger next(reply)]
            plausible(Event { call, reply }) ==> matching(
                slow,
                next(reply),
                traced_next(reply),
                trace_line(call, reply),
            )) implies twins(
        slow,
        #[trigger] chain(turn(call), next),
        #[trigger] chain(turn(call), traced_next),
    ) by {
        let later = chain(turn(call), next)->Turn_1;
        let traced_later = chain(turn(call), traced_next)->Turn_1;
        assert forall|reply: Reply|
            #![trigger later(reply)]
            plausible(Event { call, reply }) implies matching(
            slow,
            later(reply),
            traced_later(reply),
            trace_line(call, reply),
        ) by {
            assert(later(reply) == chain(Dialogue::Over(reply), next));
            assert(traced_later(reply) == chain(Dialogue::Over(reply), traced_next));
            assert(matching(slow, next(reply), traced_next(reply), trace_line(call, reply)));
        }
    }
}

/// A trace of transferred bytes is one line, and then whatever comes next.
proof fn lemma_shown<B>(settings: Settings, direction: Seq<char>, bytes: Seq<u8>)
    requires
        settings.raw_uart_trace,
        bytes.len() > 0,
    ensures
        forall|next: spec_fn(()) -> Dialogue<B>|
            (#[trigger] chain(stub::trace_uart(settings, direction, bytes), next)) matches
                Dialogue::Turn(call, rest) && call == Call::Note(uart_line(direction, bytes))
                && rest(Reply::Finished) == next(()),
{
    reveal_with_fuel(chain, 3);
}

/// Waiting is the same with and without a trace.
proof fn lemma_pace(quiet: Settings, traced: Settings)
    requires
        differ_in_trace(quiet, traced),
    ensures
        twins(slowed(quiet), stub::pace_tx_byte(quiet), stub::pace_tx_byte(traced)),
{
    if stub::extra_time(quiet.tx_pacing) > 0 {
        let call = Call::Pause(stub::extra_time(quiet.tx_pacing));
        lemma_call::<()>(slowed(quiet), call);
    }
}

/// Writing.
proof fn lemma_write_all(quiet: Settings, traced: Settings, bytes: Seq<u8>)
    requires
        differ_in_trace(quiet, traced),
    ensures
        twins(slowed(quiet), stub::write_all(quiet, bytes), stub::write_all(traced, bytes)),
    decreases bytes.len(),
{
    if bytes.len() > 0 {
        let slow = slowed(quiet);
        let offered = stub::offered(quiet, bytes);
        let call = Call::Write(offered);
        let one = stub::write_all(quiet, bytes);
        let other = stub::write_all(traced, bytes);
        let rest = one->Turn_1;
        let traced_rest = other->Turn_1;
        assert(one is Turn && other is Turn && one->Turn_0 == call && other->Turn_0 == call);
        assert forall|reply: Reply|
            #![trigger rest(reply)]
            plausible(Event { call, reply }) implies matching(
            slow,
            rest(reply),
            traced_rest(reply),
            trace_line(call, reply),
        ) by {
            reveal_with_fuel(chain, 3);
            if let Reply::Accepted(count) = reply {
                if count > 0 {
                    let part = bytes.take(count as int);
                    assert(offered.take(count as int) =~= part);
                    lemma_shown::<Result<(), Failure>>(traced, "TX"@, part);
                    lemma_write_all(quiet, traced, bytes.skip(count as int));
                    lemma_pace(quiet, traced);
                    lemma_then::<(), Result<(), Failure>>(
                        slow,
                        stub::pace_tx_byte(quiet),
                        stub::pace_tx_byte(traced),
                    );
                }
            }
        }
    }
}

/// Twins that go on like twins where they succeed are twins.
pub proof fn lemma_try<A, B, E>(
    slow: bool,
    quiet: Dialogue<Result<A, E>>,
    traced: Dialogue<Result<A, E>>,
)
    requires
        twins(slow, quiet, traced),
    ensures
        forall|
            next: spec_fn(A) -> Dialogue<Result<B, E>>,
            traced_next: spec_fn(A) -> Dialogue<Result<B, E>>,
        |
            (forall|result: A| twins(slow, #[trigger] next(result), traced_next(result)))
                ==> twins(
                slow,
                #[trigger] attempt(quiet, next),
                #[trigger] attempt(traced, traced_next),
            ),
{
    assert forall|
        next: spec_fn(A) -> Dialogue<Result<B, E>>,
        traced_next: spec_fn(A) -> Dialogue<Result<B, E>>,
    |
        (forall|result: A| twins(slow, #[trigger] next(result), traced_next(result))) implies twins(
        slow,
        #[trigger] attempt(quiet, next),
        #[trigger] attempt(traced, traced_next),
    ) by {
        let go_on = |outcome: Result<A, E>|
            match outcome {
                Ok(result) => next(result),
                Err(error) => Dialogue::Over(Err(error)),
            };
        let traced_go_on = |outcome: Result<A, E>|
            match outcome {
                Ok(result) => traced_next(result),
                Err(error) => Dialogue::Over(Err(error)),
            };
        assert forall|outcome: Result<A, E>| twins(
            slow,
            #[trigger] go_on(outcome),
            traced_go_on(outcome),
        ) by {
            if let Ok(result) = outcome {
                assert(twins(slow, next(result), traced_next(result)));
            }
        }
        lemma_twins_chain(slow, quiet, traced, go_on, traced_go_on);
        assert(attempt(quiet, next) == chain(quiet, go_on));
        assert(attempt(traced, traced_next) == chain(traced, traced_go_on));
    }
}

/// Reading.
proof fn lemma_read_more(quiet: Settings, traced: Settings, bytes: Seq<u8>, left: nat)
    requires
        differ_in_trace(quiet, traced),
    ensures
        twins(
            slowed(quiet),
            stub::read_more(quiet, bytes, left),
            stub::read_more(traced, bytes, left),
        ),
    decreases left,
{
    if left > 0 {
        let slow = slowed(quiet);
        let call = Call::Read(left);
        let one = stub::read_more(quiet, bytes, left);
        let other = stub::read_more(traced, bytes, left);
        let rest = one->Turn_1;
        let traced_rest = other->Turn_1;
        assert(one is Turn && other is Turn && one->Turn_0 == call && other->Turn_0 == call);
        assert forall|reply: Reply|
            #![trigger rest(reply)]
            plausible(Event { call, reply }) implies matching(
            slow,
            rest(reply),
            traced_rest(reply),
            trace_line(call, reply),
        ) by {
            reveal_with_fuel(chain, 3);
            if let Reply::Delivered(more) = reply {
                if more.len() > 0 {
                    lemma_shown::<Result<Seq<u8>, Failure>>(traced, "RX"@, more);
                    lemma_read_more(quiet, traced, bytes + more, (left - more.len()) as nat);
                }
            }
        }
    }
}

/// Pushing out what was written.
proof fn lemma_flush(slow: bool)
    ensures
        twins(slow, stub::flush(), stub::flush()),
{
    lemma_call::<Result<(), Failure>>(slow, Call::Flush);
}

/// Sending bytes.
proof fn lemma_send(quiet: Settings, traced: Settings, bytes: Seq<u8>)
    requires
        differ_in_trace(quiet, traced),
    ensures
        twins(slowed(quiet), stub::send(quiet, bytes), stub::send(traced, bytes)),
{
    let slow = slowed(quiet);
    lemma_write_all(quiet, traced, bytes);
    lemma_flush(slow);
    lemma_try::<(), (), Failure>(
        slow,
        stub::write_all(quiet, bytes),
        stub::write_all(traced, bytes),
    );
}

/// Sending a frame.
proof fn lemma_transmit(quiet: Settings, traced: Settings, frame: Seq<u8>)
    requires
        differ_in_trace(quiet, traced),
    ensures
        twins(slowed(quiet), stub::transmit(quiet, frame), stub::transmit(traced, frame)),
{
    let slow = slowed(quiet);
    lemma_send(quiet, traced, frame.take(1));
    lemma_send(quiet, traced, frame.skip(1));
    lemma_call::<Result<(), Failure>>(slow, Call::Pause(1_000_000));
    lemma_try::<(), (), Failure>(
        slow,
        stub::send(quiet, frame.take(1)),
        stub::send(traced, frame.take(1)),
    );
}

/// Reading a single byte.
proof fn lemma_notification(quiet: Settings, traced: Settings)
    requires
        differ_in_trace(quiet, traced),
    ensures
        twins(
            slowed(quiet),
            stub::read_notification(quiet),
            stub::read_notification(traced),
        ),
{
    lemma_read_more(quiet, traced, seq![], 1);
    lemma_try::<Seq<u8>, u8, Failure>(
        slowed(quiet),
        stub::read_exact(quiet, 1),
        stub::read_exact(traced, 1),
    );
}

/// Waiting for an answer.
proof fn lemma_acknowledgement(quiet: Settings, traced: Settings, limit: nat)
    requires
        differ_in_trace(quiet, traced),
    ensures
        twins(
            slowed(quiet),
            stub::read_acknowledgement(quiet, limit),
            stub::read_acknowledgement(traced, limit),
        ),
    decreases limit,
{
    if limit > 0 {
        lemma_notification(quiet, traced);
        lemma_acknowledgement(quiet, traced, (limit - 1) as nat);
        lemma_try::<u8, u8, Failure>(
            slowed(quiet),
            stub::read_notification(quiet),
            stub::read_notification(traced),
        );
    }
}

/// Sending a frame until it is acknowledged.
proof fn lemma_send_attempts(
    quiet: Settings,
    traced: Settings,
    frame: Seq<u8>,
    operation: Seq<char>,
    attempts: nat,
)
    requires
        differ_in_trace(quiet, traced),
    ensures
        twins(
            slowed(quiet),
            stub::send_attempts(quiet, frame, operation, attempts),
            stub::send_attempts(traced, frame, operation, attempts),
        ),
    decreases attempts,
{
    if attempts > 0 {
        let slow = slowed(quiet);
        let limit = stub::NOISE_LIMIT as nat;
        lemma_transmit(quiet, traced, frame);
        lemma_acknowledgement(quiet, traced, limit);
        lemma_send_attempts(quiet, traced, frame, operation, (attempts - 1) as nat);
        lemma_try::<u8, (), Failure>(
            slow,
            stub::read_acknowledgement(quiet, limit),
            stub::read_acknowledgement(traced, limit),
        );
        lemma_try::<(), (), Failure>(
            slow,
            stub::transmit(quiet, frame),
            stub::transmit(traced, frame),
        );
    }
}

/// Sending a request.
proof fn lemma_acknowledged(
    quiet: Settings,
    traced: Settings,
    frame: Seq<u8>,
    operation: Seq<char>,
)
    requires
        differ_in_trace(quiet, traced),
    ensures
        twins(
            slowed(quiet),
            stub::send_acknowledged(quiet, frame, operation),
            stub::send_acknowledged(traced, frame, operation),
        ),
{
    lemma_send_attempts(quiet, traced, frame, operation, quiet.retries + 1);
}

/// Searching for a response header.
proof fn lemma_response_header(
    quiet: Settings,
    traced: Settings,
    kind: u8,
    limit: nat,
    marked: bool,
)
    requires
        differ_in_trace(quiet, traced),
    ensures
        !marked ==> twins(
            slowed(quiet),
            stub::read_response_header(quiet, kind, limit),
            stub::read_response_header(traced, kind, limit),
        ),
        marked ==> twins(
            slowed(quiet),
            stub::read_response_kind(quiet, kind, limit),
            stub::read_response_kind(traced, kind, limit),
        ),
    decreases
            limit,
            if marked {
                0int
            } else {
                1int
            },
{
    if limit > 0 {
        lemma_notification(quiet, traced);
        lemma_response_header(quiet, traced, kind, (limit - 1) as nat, false);
        lemma_response_header(quiet, traced, kind, (limit - 1) as nat, true);
        if !marked {
            lemma_response_header(quiet, traced, kind, limit, true);
        }
        lemma_try::<u8, (), Failure>(
            slowed(quiet),
            stub::read_notification(quiet),
            stub::read_notification(traced),
        );
    }
}

/// Reading the body of a response.
proof fn lemma_response_body(
    quiet: Settings,
    traced: Settings,
    kind: u8,
    count: nat,
    rejection: Failure,
)
    requires
        differ_in_trace(quiet, traced),
    ensures
        twins(
            slowed(quiet),
            stub::read_response_body(quiet, kind, count, rejection),
            stub::read_response_body(traced, kind, count, rejection),
        ),
{
    let slow = slowed(quiet);
    lemma_read_more(quiet, traced, seq![], count);
    lemma_notification(quiet, traced);
    lemma_send(quiet, traced, seq![ACK]);
    lemma_send(quiet, traced, seq![NAK]);
    lemma_try::<(), Seq<u8>, Failure>(
        slow,
        stub::send(quiet, seq![ACK]),
        stub::send(traced, seq![ACK]),
    );
    lemma_try::<(), Seq<u8>, Failure>(
        slow,
        stub::send(quiet, seq![NAK]),
        stub::send(traced, seq![NAK]),
    );
    lemma_try::<u8, Seq<u8>, Failure>(
        slow,
        stub::read_notification(quiet),
        stub::read_notification(traced),
    );
    lemma_try::<Seq<u8>, Seq<u8>, Failure>(
        slow,
        stub::read_exact(quiet, count),
        stub::read_exact(traced, count),
    );
}

/// Reading a header that has to come right away.
proof fn lemma_expect_header(quiet: Settings, traced: Settings, kind: u8)
    requires
        differ_in_trace(quiet, traced),
    ensures
        twins(
            slowed(quiet),
            stub::expect_header(quiet, kind),
            stub::expect_header(traced, kind),
        ),
{
    lemma_notification(quiet, traced);
    lemma_try::<u8, (), Failure>(
        slowed(quiet),
        stub::read_notification(quiet),
        stub::read_notification(traced),
    );
}

/// Selecting an address.
pub proof fn lemma_set_address(
    quiet: Settings,
    traced: Settings,
    address: u32,
)
    requires
        differ_in_trace(quiet, traced),
    ensures
        twins(
            slowed(quiet),
            stub::set_address(quiet, address),
            stub::set_address(traced, address),
        ),
{
    reveal(stub::set_address);
    lemma_acknowledged(quiet, traced, request_frame(ADDRESS, be32(address)), "address request"@);
}

/// Writing in one request.
pub proof fn lemma_write(
    quiet: Settings,
    traced: Settings,
    data: Seq<u8>,
)
    requires
        differ_in_trace(quiet, traced),
    ensures
        twins(
            slowed(quiet),
            stub::write(quiet, data),
            stub::write(traced, data),
        ),
{
    reveal(stub::write);
    if data.len() <= 0xffff {
        let frame = request_frame(WRITE, be16(data.len() as u16) + data);
        lemma_acknowledged(quiet, traced, frame, "write request"@);
    }
}

/// Allocating a buffer.
pub proof fn lemma_allocate_buffer(
    quiet: Settings,
    traced: Settings,
    size: nat,
)
    requires
        differ_in_trace(quiet, traced),
    ensures
        twins(
            slowed(quiet),
            stub::allocate_buffer(quiet, size),
            stub::allocate_buffer(traced, size),
        ),
{
    reveal(stub::allocate_buffer);
    if stub::valid_chunk_size(size) {
        let slow = slowed(quiet);
        let limit = stub::NOISE_LIMIT as nat;
        let frame = request_frame(BUFFER, be16(size as u16));
        let rejection = Failure::InvalidReadResponse;
        lemma_acknowledged(quiet, traced, frame, "buffer request"@);
        lemma_response_header(quiet, traced, BUFFER, limit, false);
        lemma_response_body(quiet, traced, BUFFER, 6, rejection);
        lemma_try::<Seq<u8>, (usize, u32), Failure>(
            slow,
            stub::read_response_body(quiet, BUFFER, 6, rejection),
            stub::read_response_body(traced, BUFFER, 6, rejection),
        );
        lemma_try::<(), (usize, u32), Failure>(
            slow,
            stub::read_response_header(quiet, BUFFER, limit),
            stub::read_response_header(traced, BUFFER, limit),
        );
        lemma_try::<(), (usize, u32), Failure>(
            slow,
            stub::send_acknowledged(quiet, frame, "buffer request"@),
            stub::send_acknowledged(traced, frame, "buffer request"@),
        );
    }
}

/// Selecting registers.
pub proof fn lemma_select_registers(
    quiet: Settings,
    traced: Settings,
    mask: u32,
)
    requires
        differ_in_trace(quiet, traced),
    ensures
        twins(
            slowed(quiet),
            stub::select_registers(quiet, mask),
            stub::select_registers(traced, mask),
        ),
{
    reveal(stub::select_registers);
    lemma_acknowledged(quiet, traced, request_frame(REGISTERS, be32(mask)), "register request"@);
}

/// Setting registers.
pub proof fn lemma_set_registers(
    quiet: Settings,
    traced: Settings,
    mask: u32,
    values: Seq<u32>,
)
    requires
        differ_in_trace(quiet, traced),
    ensures
        twins(
            slowed(quiet),
            stub::set_registers(quiet, mask, values),
            stub::set_registers(traced, mask, values),
        ),
{
    reveal(stub::set_registers);
    if values.len() == ones(mask) {
        lemma_select_registers(quiet, traced, mask);
        lemma_write(quiet, traced, stub::be32_list(values));
        lemma_try::<(), (), Failure>(
            slowed(quiet),
            stub::select_registers(quiet, mask),
            stub::select_registers(traced, mask),
        );
    }
}

/// Making an OS-9 call.
pub proof fn lemma_os9_call(
    quiet: Settings,
    traced: Settings,
    call: u16,
    result_mask: u32,
)
    requires
        differ_in_trace(quiet, traced),
    ensures
        twins(
            slowed(quiet),
            stub::os9_call(quiet, call, result_mask),
            stub::os9_call(traced, call, result_mask),
        ),
{
    reveal(stub::os9_call);
    let slow = slowed(quiet);
    let limit = stub::NOISE_LIMIT as nat;
    let frame = request_frame(OS9CALL, be16(call) + be32(result_mask));
    let rejection = Failure::InvalidReadResponse;
    lemma_acknowledged(quiet, traced, frame, "OS-9 call request"@);
    lemma_response_header(quiet, traced, OS9CALL, limit, false);
    lemma_response_body(quiet, traced, OS9CALL, 4, rejection);
    lemma_try::<Seq<u8>, u32, Failure>(
        slow,
        stub::read_response_body(quiet, OS9CALL, 4, rejection),
        stub::read_response_body(traced, OS9CALL, 4, rejection),
    );
    lemma_try::<(), u32, Failure>(
        slow,
        stub::read_response_header(quiet, OS9CALL, limit),
        stub::read_response_header(traced, OS9CALL, limit),
    );
    lemma_try::<(), u32, Failure>(
        slow,
        stub::send_acknowledged(quiet, frame, "OS-9 call request"@),
        stub::send_acknowledged(traced, frame, "OS-9 call request"@),
    );
}

/// Writing in chunks.
proof fn lemma_write_chunks(
    quiet: Settings,
    traced: Settings,
    data: Seq<u8>,
    chunk_size: nat,
)
    requires
        differ_in_trace(quiet, traced),
    ensures
        twins(
            slowed(quiet),
            stub::write_chunks(quiet, data, chunk_size),
            stub::write_chunks(traced, data, chunk_size),
        ),
    decreases data.len(),
{
    if data.len() > 0 && chunk_size > 0 {
        let count = stub::chunk_length(data.len(), chunk_size) as int;
        lemma_write(quiet, traced, data.take(count));
        lemma_write_chunks(quiet, traced, data.skip(count), chunk_size);
        lemma_try::<(), (), Failure>(
            slowed(quiet),
            stub::write(quiet, data.take(count)),
            stub::write(traced, data.take(count)),
        );
    }
}

/// Downloading.
proof fn lemma_download(
    quiet: Settings,
    traced: Settings,
    address: u32,
    data: Seq<u8>,
    chunk_size: nat,
)
    requires
        differ_in_trace(quiet, traced),
    ensures
        twins(
            slowed(quiet),
            stub::download(quiet, address, data, chunk_size),
            stub::download(traced, address, data, chunk_size),
        ),
{
    lemma_set_address(quiet, traced, address);
    lemma_write_chunks(quiet, traced, data, chunk_size);
    lemma_try::<(), (), Failure>(
        slowed(quiet),
        stub::set_address(quiet, address),
        stub::set_address(traced, address),
    );
}

/// Reading a response until it is undamaged.
proof fn lemma_read_attempts(
    quiet: Settings,
    traced: Settings,
    size: nat,
    attempts: nat,
)
    requires
        differ_in_trace(quiet, traced),
    ensures
        twins(
            slowed(quiet),
            stub::read_attempts(quiet, size, attempts),
            stub::read_attempts(traced, size, attempts),
        ),
    decreases attempts,
{
    if attempts > 0 {
        let slow = slowed(quiet);
        lemma_expect_header(quiet, traced, READ);
        lemma_read_more(quiet, traced, seq![], 2);
        lemma_read_more(quiet, traced, seq![], size);
        lemma_notification(quiet, traced);
        lemma_send(quiet, traced, seq![ACK]);
        lemma_send(quiet, traced, seq![NAK]);
        lemma_read_attempts(quiet, traced, size, (attempts - 1) as nat);
        lemma_try::<(), Seq<u8>, Failure>(
            slow,
            stub::send(quiet, seq![ACK]),
            stub::send(traced, seq![ACK]),
        );
        lemma_try::<(), Seq<u8>, Failure>(
            slow,
            stub::send(quiet, seq![NAK]),
            stub::send(traced, seq![NAK]),
        );
        lemma_try::<u8, Seq<u8>, Failure>(
            slow,
            stub::read_notification(quiet),
            stub::read_notification(traced),
        );
        lemma_try::<Seq<u8>, Seq<u8>, Failure>(
            slow,
            stub::read_exact(quiet, size),
            stub::read_exact(traced, size),
        );
        lemma_try::<Seq<u8>, Seq<u8>, Failure>(
            slow,
            stub::read_exact(quiet, 2),
            stub::read_exact(traced, 2),
        );
        lemma_try::<(), Seq<u8>, Failure>(
            slow,
            stub::expect_header(quiet, READ),
            stub::expect_header(traced, READ),
        );
    }
}

/// Reading in one request.
pub proof fn lemma_read(
    quiet: Settings,
    traced: Settings,
    size: nat,
)
    requires
        differ_in_trace(quiet, traced),
    ensures
        twins(
            slowed(quiet),
            stub::read(quiet, size),
            stub::read(traced, size),
        ),
{
    reveal(stub::read);
    if stub::valid_chunk_size(size) {
        let frame = request_frame(READ, be16(size as u16));
        lemma_acknowledged(quiet, traced, frame, "read request"@);
        lemma_read_attempts(quiet, traced, size, quiet.retries + 1);
        lemma_try::<(), Seq<u8>, Failure>(
            slowed(quiet),
            stub::send_acknowledged(quiet, frame, "read request"@),
            stub::send_acknowledged(traced, frame, "read request"@),
        );
    }
}

/// Reading in chunks.
proof fn lemma_read_chunks(
    quiet: Settings,
    traced: Settings,
    data: Seq<u8>,
    left: nat,
    chunk_size: nat,
)
    requires
        differ_in_trace(quiet, traced),
    ensures
        twins(
            slowed(quiet),
            stub::read_chunks(quiet, data, left, chunk_size),
            stub::read_chunks(traced, data, left, chunk_size),
        ),
    decreases left,
{
    if left > 0 && chunk_size > 0 {
        let slow = slowed(quiet);
        let count = stub::chunk_length(left, chunk_size);
        lemma_read(quiet, traced, count);
        assert forall|chunk: Seq<u8>| twins(
            slow,
            stub::read_chunks(quiet, #[trigger] (data + chunk), (left - count) as nat, chunk_size),
            stub::read_chunks(traced, data + chunk, (left - count) as nat, chunk_size),
        ) by {
            lemma_read_chunks(quiet, traced, data + chunk, (left - count) as nat, chunk_size);
        }
        lemma_try::<Seq<u8>, Seq<u8>, Failure>(
            slow,
            stub::read(quiet, count),
            stub::read(traced, count),
        );
    }
}

/// Uploading.
proof fn lemma_upload(
    quiet: Settings,
    traced: Settings,
    address: u32,
    size: nat,
    chunk_size: nat,
)
    requires
        differ_in_trace(quiet, traced),
    ensures
        twins(
            slowed(quiet),
            stub::upload(quiet, address, size, chunk_size),
            stub::upload(traced, address, size, chunk_size),
        ),
{
    lemma_set_address(quiet, traced, address);
    lemma_read_chunks(quiet, traced, seq![], size, chunk_size);
    lemma_try::<(), Seq<u8>, Failure>(
        slowed(quiet),
        stub::set_address(quiet, address),
        stub::set_address(traced, address),
    );
}

/// Agreeing on a baud rate.
proof fn lemma_negotiate(
    quiet: Settings,
    traced: Settings,
    desired: u32,
)
    requires
        differ_in_trace(quiet, traced),
    ensures
        twins(
            slowed(quiet),
            stub::negotiate_baud_rate(quiet, desired),
            stub::negotiate_baud_rate(traced, desired),
        ),
{
    let slow = slowed(quiet);
    let frame = request_frame(BAUDRATE, be32(desired));
    let rejection = Failure::RetryLimitExceeded {
        operation: "baud-rate response"@,
        attempts: 1,
    };
    lemma_acknowledged(quiet, traced, frame, "baud-rate request"@);
    lemma_expect_header(quiet, traced, BAUDRATE);
    lemma_response_body(quiet, traced, BAUDRATE, 4, rejection);
    lemma_try::<Seq<u8>, u32, Failure>(
        slow,
        stub::read_response_body(quiet, BAUDRATE, 4, rejection),
        stub::read_response_body(traced, BAUDRATE, 4, rejection),
    );
    lemma_try::<(), u32, Failure>(
        slow,
        stub::expect_header(quiet, BAUDRATE),
        stub::expect_header(traced, BAUDRATE),
    );
    lemma_try::<(), u32, Failure>(
        slow,
        stub::send_acknowledged(quiet, frame, "baud-rate request"@),
        stub::send_acknowledged(traced, frame, "baud-rate request"@),
    );
}

/// Starting code.
proof fn lemma_execute(
    quiet: Settings,
    traced: Settings,
    address: u32,
)
    requires
        differ_in_trace(quiet, traced),
    ensures
        twins(
            slowed(quiet),
            stub::execute(quiet, address),
            stub::execute(traced, address),
        ),
{
    lemma_acknowledged(quiet, traced, request_frame(EXECUTE, be32(address)), "execute request"@);
}

/// Waiting until code returns.
proof fn lemma_execution_end(
    quiet: Settings,
    traced: Settings,
)
    requires
        differ_in_trace(quiet, traced),
    ensures
        twins(
            slowed(quiet),
            stub::wait_for_execution_end(quiet),
            stub::wait_for_execution_end(traced),
        ),
{
    lemma_notification(quiet, traced);
    lemma_try::<u8, (), Failure>(
        slowed(quiet),
        stub::read_notification(quiet),
        stub::read_notification(traced),
    );
}

/// Ending the stub.
proof fn lemma_end(
    quiet: Settings,
    traced: Settings,
)
    requires
        differ_in_trace(quiet, traced),
    ensures
        twins(
            slowed(quiet),
            stub::end(quiet),
            stub::end(traced),
        ),
{
    lemma_acknowledged(quiet, traced, request_frame(END, seq![]), "end request"@);
}

/// Waiting for an endpoint.
proof fn lemma_await_announcement(
    quiet: Settings,
    traced: Settings,
    banner: Seq<u8>,
    limit: nat,
)
    requires
        differ_in_trace(quiet, traced),
    ensures
        twins(
            slowed(quiet),
            stub::await_announcement(quiet, banner, limit),
            stub::await_announcement(traced, banner, limit),
        ),
    decreases limit,
{
    if limit > 0 {
        let slow = slowed(quiet);
        lemma_notification(quiet, traced);
        lemma_send(quiet, traced, seq![ACK]);
        assert forall|byte: u8| twins(
            slow,
            stub::await_announcement(quiet, #[trigger] banner.push(byte), (limit - 1) as nat),
            stub::await_announcement(traced, banner.push(byte), (limit - 1) as nat),
        ) by {
            lemma_await_announcement(quiet, traced, banner.push(byte), (limit - 1) as nat);
        }
        lemma_try::<(), (Seq<u8>, u8), Failure>(
            slow,
            stub::send(quiet, seq![ACK]),
            stub::send(traced, seq![ACK]),
        );
        lemma_try::<u8, (Seq<u8>, u8), Failure>(
            slow,
            stub::read_notification(quiet),
            stub::read_notification(traced),
        );
    }
}

/// Waiting for an endpoint and its text.
proof fn lemma_wait_for_stub(
    quiet: Settings,
    traced: Settings,
    max_bytes: nat,
)
    requires
        differ_in_trace(quiet, traced),
    ensures
        twins(
            slowed(quiet),
            stub::wait_for_stub(quiet, max_bytes),
            stub::wait_for_stub(traced, max_bytes),
        ),
{
    lemma_await_announcement(quiet, traced, seq![], max_bytes);
    lemma_try::<(Seq<u8>, u8), Seq<u8>, Failure>(
        slowed(quiet),
        stub::wait_for_announcement(quiet, max_bytes),
        stub::wait_for_announcement(traced, max_bytes),
    );
}

/// Every operation of a session keeps to the pacing, and a trace of the line
/// changes nothing about it but the lines that are shown.
pub proof fn law_operations_are_conducted_alike(
    quiet: Settings,
    traced: Settings,
    address: u32,
    data: Seq<u8>,
    size: nat,
    chunk_size: nat,
    mask: u32,
    values: Seq<u32>,
    call: u16,
    result_mask: u32,
    desired: u32,
)
    requires
        differ_in_trace(quiet, traced),
    ensures
        twins(
            slowed(quiet),
            stub::set_address(quiet, address),
            stub::set_address(traced, address),
        ),
        twins(
            slowed(quiet),
            stub::write(quiet, data),
            stub::write(traced, data),
        ),
        twins(
            slowed(quiet),
            stub::allocate_buffer(quiet, size),
            stub::allocate_buffer(traced, size),
        ),
        twins(
            slowed(quiet),
            stub::select_registers(quiet, mask),
            stub::select_registers(traced, mask),
        ),
        twins(
            slowed(quiet),
            stub::set_registers(quiet, mask, values),
            stub::set_registers(traced, mask, values),
        ),
        twins(
            slowed(quiet),
            stub::os9_call(quiet, call, result_mask),
            stub::os9_call(traced, call, result_mask),
        ),
        twins(
            slowed(quiet),
            stub::download(quiet, address, data, chunk_size),
            stub::download(traced, address, data, chunk_size),
        ),
        twins(
            slowed(quiet),
            stub::read(quiet, size),
            stub::read(traced, size),
        ),
        twins(
            slowed(quiet),
            stub::upload(quiet, address, size, chunk_size),
            stub::upload(traced, address, size, chunk_size),
        ),
        twins(
            slowed(quiet),
            stub::negotiate_baud_rate(quiet, desired),
            stub::negotiate_baud_rate(traced, desired),
        ),
        twins(
            slowed(quiet),
            stub::execute(quiet, address),
            stub::execute(traced, address),
        ),
        twins(
            slowed(quiet),
            stub::wait_for_execution_end(quiet),
            stub::wait_for_execution_end(traced),
        ),
        twins(
            slowed(quiet),
            stub::end(quiet),
            stub::end(traced),
        ),
        twins(
            slowed(quiet),
            stub::wait_for_announcement(quiet, size),
            stub::wait_for_announcement(traced, size),
        ),
        twins(
            slowed(quiet),
            stub::wait_for_stub(quiet, size),
            stub::wait_for_stub(traced, size),
        ),
{
    lemma_set_address(quiet, traced, address);
    lemma_write(quiet, traced, data);
    lemma_allocate_buffer(quiet, traced, size);
    lemma_select_registers(quiet, traced, mask);
    lemma_set_registers(quiet, traced, mask, values);
    lemma_os9_call(quiet, traced, call, result_mask);
    lemma_download(quiet, traced, address, data, chunk_size);
    lemma_read(quiet, traced, size);
    lemma_upload(quiet, traced, address, size, chunk_size);
    lemma_negotiate(quiet, traced, desired);
    lemma_execute(quiet, traced, address);
    lemma_execution_end(quiet, traced);
    lemma_end(quiet, traced);
    lemma_await_announcement(quiet, traced, seq![], size);
    lemma_wait_for_stub(quiet, traced, size);
}

/// What a traced session has in its history for an event: the event, and the
/// line that is shown for it, if there is one.
pub open spec fn noted(event: Event) -> Seq<Event> {
    match trace_line(event.call, event.reply) {
        Some(line) => seq![event, Event { call: Call::Note(line), reply: Reply::Finished }],
        None => seq![event],
    }
}

/// A record with the lines that a trace shows.
pub open spec fn with_trace(log: Seq<Event>) -> Seq<Event>
    decreases log.len(),
{
    if log.len() == 0 {
        Seq::empty()
    } else {
        noted(log[0]) + with_trace(log.skip(1))
    }
}

/// What a session with a trace does and concludes is what the session without it
/// does and concludes, with the lines that are shown put in.
pub proof fn law_quiet_records_can_be_traced<A>(
    slow: bool,
    quiet: Dialogue<A>,
    traced: Dialogue<A>,
    log: Seq<Event>,
    outcome: A,
)
    requires
        twins(slow, quiet, traced),
        follows(log, quiet, outcome),
    ensures
        follows(with_trace(log), traced, outcome),
    decreases log.len(),
{
    if log.len() > 0 {
        let event = log[0];
        let later = log.skip(1);
        let whole = with_trace(log);
        let (rest, traced_rest) = (quiet->Turn_1, traced->Turn_1);
        assert(quiet is Turn && traced is Turn);
        if again(event) {
            law_quiet_records_can_be_traced(slow, quiet, traced, later, outcome);
            assert(whole.skip(1) =~= with_trace(later));
        } else {
            let left = rest(event.reply);
            let traced_left = traced_rest(event.reply);
            assert(matching(slow, left, traced_left, trace_line(event.call, event.reply)));
            match trace_line(event.call, event.reply) {
                None => {
                    law_quiet_records_can_be_traced(slow, left, traced_left, later, outcome);
                    assert(whole.skip(1) =~= with_trace(later));
                },
                Some(_) => {
                    let note_rest = traced_left->Turn_1;
                    let last = note_rest(Reply::Finished);
                    law_quiet_records_can_be_traced(slow, left, last, later, outcome);
                    assert(whole.skip(1).skip(1) =~= with_trace(later));
                    assert(after(traced_left, whole.skip(1)) == after(last, with_trace(later)));
                },
            }
        }
    }
}

/// A session with a trace does nothing else: without the lines that are shown,
/// its record is one of the session without a trace, with the same outcome.
pub proof fn law_traced_records_add_only_notes<A>(
    slow: bool,
    quiet: Dialogue<A>,
    traced: Dialogue<A>,
    log: Seq<Event>,
    outcome: A,
) -> (bare: Seq<Event>)
    requires
        twins(slow, quiet, traced),
        follows(log, traced, outcome),
    ensures
        log == with_trace(bare),
        follows(bare, quiet, outcome),
    decreases log.len(),
{
    if log.len() == 0 {
        log
    } else {
        let event = log[0];
        let later = log.skip(1);
        let (rest, traced_rest) = (quiet->Turn_1, traced->Turn_1);
        assert(quiet is Turn && traced is Turn);
        if again(event) {
            let bare = law_traced_records_add_only_notes(slow, quiet, traced, later, outcome);
            let all = seq![event] + bare;
            assert(all.skip(1) =~= bare);
            assert(with_trace(all) =~= log);
            all
        } else {
            let left = rest(event.reply);
            let traced_left = traced_rest(event.reply);
            assert(matching(slow, left, traced_left, trace_line(event.call, event.reply)));
            match trace_line(event.call, event.reply) {
                None => {
                    let bare = law_traced_records_add_only_notes(
                        slow,
                        left,
                        traced_left,
                        later,
                        outcome,
                    );
                    let all = seq![event] + bare;
                    assert(all.skip(1) =~= bare);
                    assert(with_trace(all) =~= log);
                    all
                },
                Some(_) => {
                    let note_rest = traced_left->Turn_1;
                    let last = note_rest(Reply::Finished);
                    assert(later.len() > 0);
                    assert(after(traced_left, later) == after(last, later.skip(1)));
                    let bare = law_traced_records_add_only_notes(
                        slow,
                        left,
                        last,
                        later.skip(1),
                        outcome,
                    );
                    let all = seq![event] + bare;
                    assert(all.skip(1) =~= bare);
                    assert(log =~= noted(event) + later.skip(1));
                    assert(with_trace(all) =~= log);
                    all
                },
            }
        }
    }
}

/// While transmission is slowed every write offers exactly one byte, with and
/// without a trace.
pub proof fn law_writes_are_paced<A>(
    slow: bool,
    quiet: Dialogue<A>,
    traced: Dialogue<A>,
    log: Seq<Event>,
    outcome: A,
)
    requires
        twins(slow, quiet, traced),
        follows(log, quiet, outcome) || follows(log, traced, outcome),
    ensures
        forall|i: int| 0 <= i < log.len() ==> paced(slow, (#[trigger] log[i]).call),
{
    if follows(log, quiet, outcome) {
        lemma_paced(slow, quiet, traced, log, outcome);
    } else {
        let bare = law_traced_records_add_only_notes(slow, quiet, traced, log, outcome);
        lemma_paced(slow, quiet, traced, bare, outcome);
        lemma_trace_paced(slow, bare);
    }
}

/// The record of the one without a trace.
proof fn lemma_paced<A>(
    slow: bool,
    quiet: Dialogue<A>,
    traced: Dialogue<A>,
    log: Seq<Event>,
    outcome: A,
)
    requires
        twins(slow, quiet, traced),
        follows(log, quiet, outcome),
    ensures
        forall|i: int| 0 <= i < log.len() ==> paced(slow, (#[trigger] log[i]).call),
    decreases log.len(),
{
    if log.len() > 0 {
        let event = log[0];
        let later = log.skip(1);
        let (rest, traced_rest) = (quiet->Turn_1, traced->Turn_1);
        assert(quiet is Turn && traced is Turn);
        if again(event) {
            lemma_paced(slow, quiet, traced, later, outcome);
        } else {
            let left = rest(event.reply);
            let traced_left = traced_rest(event.reply);
            assert(matching(slow, left, traced_left, trace_line(event.call, event.reply)));
            match trace_line(event.call, event.reply) {
                None => {
                    lemma_paced(slow, left, traced_left, later, outcome);
                },
                Some(_) => {
                    let note_rest = traced_left->Turn_1;
                    lemma_paced(slow, left, note_rest(Reply::Finished), later, outcome);
                },
            }
        }
        assert forall|i: int| 0 <= i < log.len() implies paced(slow, (#[trigger] log[i]).call) by {
            if i > 0 {
                assert(log[i] == later[i - 1]);
            }
        }
    }
}

/// Lines that are shown offer nothing.
proof fn lemma_trace_paced(slow: bool, log: Seq<Event>)
    requires
        forall|i: int| 0 <= i < log.len() ==> paced(slow, (#[trigger] log[i]).call),
    ensures
        forall|i: int|
            0 <= i < with_trace(log).len() ==> paced(slow, (#[trigger] with_trace(log)[i]).call),
    decreases log.len(),
{
    if log.len() > 0 {
        let later = log.skip(1);
        assert forall|i: int| 0 <= i < later.len() implies paced(
            slow,
            (#[trigger] later[i]).call,
        ) by {
            assert(later[i] == log[i + 1]);
        }
        lemma_trace_paced(slow, later);
        let front = noted(log[0]);
        assert forall|i: int| 0 <= i < with_trace(log).len() implies paced(
            slow,
            (#[trigger] with_trace(log)[i]).call,
        ) by {
            if i < front.len() {
                assert(with_trace(log)[i] == front[i]);
                assert(paced(slow, log[0].call));
            } else {
                assert(with_trace(log)[i] == with_trace(later)[i - front.len()]);
            }
        }
    }
}

} // verus!
