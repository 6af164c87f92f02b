//! What becomes of a call that fails in an OS-9 operation: the operation does not
//! succeed.

use vstd::prelude::*;

use crate::dialogue::{after, again, attempt, chain, follows, Dialogue};
use crate::error::Failure;
use crate::fault_laws::{
    broken, heeds, lemma_allocate_buffer, lemma_os9_call, lemma_read, lemma_select,
    lemma_set_registers, lemma_write, tells_of,
};
use crate::frame::{REG_A0, REG_D0, REG_D1};
use crate::line::{plausible, Call, Event, Reply};
use crate::service;
use crate::service::{
    call_line, path_bytes, sized_call_line, OS9_I_CLOSE, OS9_I_CREATE, OS9_I_DELETE, OS9_I_GETSTT,
    OS9_I_OPEN, OS9_I_READ, OS9_I_WRITE, Os9Failure, PathSteps,
};
use crate::stub;
use crate::stub::Settings;

verus! {

/// Whatever course the dialogue takes, it ends with this failure.
pub open spec fn doomed<A>(
    dialogue: Dialogue<Result<A, Os9Failure>>,
    failure: Os9Failure,
) -> bool
    decreases dialogue,
{
    match dialogue {
        Dialogue::Over(outcome) => outcome == Err::<A, Os9Failure>(failure),
        Dialogue::Turn(call, rest) => forall|reply: Reply|
            #![trigger rest(reply)]
            plausible(Event { call, reply }) ==> doomed(rest(reply), failure),
    }
}

/// Whatever course the dialogue takes, it ends with one and the same failure.
pub open spec fn lost<A>(dialogue: Dialogue<Result<A, Os9Failure>>) -> bool {
    exists|failure: Os9Failure| #[trigger] doomed(dialogue, failure)
}

/// Wherever a call of the dialogue breaks, the dialogue can only fail.
pub open spec fn spoils<A>(dialogue: Dialogue<Result<A, Os9Failure>>) -> bool
    decreases dialogue,
{
    match dialogue {
        Dialogue::Over(_) => true,
        Dialogue::Turn(call, rest) => forall|reply: Reply|
            #![trigger rest(reply)]
            plausible(Event { call, reply }) ==> if broken(reply) {
                lost(rest(reply))
            } else {
                spoils(rest(reply))
            },
    }
}

/// A dialogue that is doomed fails.
proof fn lemma_doomed_fails<A>(
    dialogue: Dialogue<Result<A, Os9Failure>>,
    failure: Os9Failure,
    log: Seq<Event>,
    outcome: Result<A, Os9Failure>,
)
    requires
        doomed(dialogue, failure),
        follows(log, dialogue, outcome),
    ensures
        outcome == Err::<A, Os9Failure>(failure),
    decreases log.len(),
{
    if log.len() > 0 {
        match dialogue {
            Dialogue::Over(_) => {},
            Dialogue::Turn(call, rest) => {
                let reply = log[0].reply;
                assert(log[0] == (Event { call, reply }));
                if again(log[0]) {
                    assert(after(dialogue, log) == after(dialogue, log.skip(1)));
                    lemma_doomed_fails(dialogue, failure, log.skip(1), outcome);
                } else {
                    assert(after(dialogue, log) == after(rest(reply), log.skip(1)));
                    lemma_doomed_fails(rest(reply), failure, log.skip(1), outcome);
                }
            },
        }
    }
}

/// An operation in which a call breaks, but for interrupted ones, does not succeed.
pub proof fn law_broken_calls_spoil_the_operation<A>(
    dialogue: Dialogue<Result<A, Os9Failure>>,
    log: Seq<Event>,
    outcome: Result<A, Os9Failure>,
    index: int,
)
    requires
        spoils(dialogue),
        follows(log, dialogue, outcome),
        0 <= index < log.len(),
        broken(log[index].reply),
        !again(log[index]),
    ensures
        outcome is Err,
    decreases log.len(),
{
    match dialogue {
        Dialogue::Over(_) => {},
        Dialogue::Turn(call, rest) => {
            let reply = log[0].reply;
            let later = log.skip(1);
            assert(log[0] == (Event { call, reply }));
            if again(log[0]) {
                assert(after(dialogue, log) == after(dialogue, later));
                assert(later[index - 1] == log[index]);
                law_broken_calls_spoil_the_operation(dialogue, later, outcome, index - 1);
            } else {
                assert(after(dialogue, log) == after(rest(reply), later));
                if broken(reply) {
                    let failure = choose|failure: Os9Failure| #[trigger]
                        doomed(rest(reply), failure);
                    lemma_doomed_fails(rest(reply), failure, later, outcome);
                } else {
                    assert(later[index - 1] == log[index]);
                    law_broken_calls_spoil_the_operation(rest(reply), later, outcome, index - 1);
                }
            }
        },
    }
}

/// What is doomed stays so, if what comes next keeps failures.
proof fn lemma_doomed_chain<A, B>(
    first: Dialogue<Result<A, Os9Failure>>,
    next: spec_fn(Result<A, Os9Failure>) -> Dialogue<Result<B, Os9Failure>>,
    failure: Os9Failure,
)
    requires
        doomed(first, failure),
        doomed(next(Err(failure)), failure),
    ensures
        doomed(chain(first, next), failure),
    decreases first,
{
    if let Dialogue::Turn(call, rest) = first {
        let later = chain(first, next)->Turn_1;
        assert forall|reply: Reply|
            #![trigger later(reply)]
            plausible(Event { call, reply }) implies doomed(later(reply), failure) by {
            assert(later(reply) == chain(rest(reply), next));
            lemma_doomed_chain(rest(reply), next, failure);
        }
    }
}

/// What spoils and goes on with what spoils and keeps failures, spoils.
proof fn lemma_spoils_chain<A, B>(
    first: Dialogue<Result<A, Os9Failure>>,
    next: spec_fn(Result<A, Os9Failure>) -> Dialogue<Result<B, Os9Failure>>,
)
    requires
        spoils(first),
        forall|outcome: Result<A, Os9Failure>| spoils(#[trigger] next(outcome)),
        forall|failure: Os9Failure| doomed(#[trigger] next(Err(failure)), failure),
    ensures
        spoils(chain(first, next)),
    decreases first,
{
    match first {
        Dialogue::Over(outcome) => {
            assert(spoils(next(outcome)));
        },
        Dialogue::Turn(call, rest) => {
            let later = chain(first, next)->Turn_1;
            assert forall|reply: Reply|
                #![trigger later(reply)]
                plausible(Event { call, reply }) implies (if broken(reply) {
                lost(later(reply))
            } else {
                spoils(later(reply))
            }) by {
                assert(later(reply) == chain(rest(reply), next));
                if broken(reply) {
                    let failure = choose|failure: Os9Failure| #[trigger]
                        doomed(rest(reply), failure);
                    assert(doomed(next(Err(failure)), failure));
                    lemma_doomed_chain(rest(reply), next, failure);
                } else {
                    lemma_spoils_chain(rest(reply), next);
                }
            }
        },
    }
}

/// What is doomed stays so, whatever would come next.
proof fn lemma_doomed_attempt<A, B>(
    first: Dialogue<Result<A, Os9Failure>>,
    next: spec_fn(A) -> Dialogue<Result<B, Os9Failure>>,
    failure: Os9Failure,
)
    requires
        doomed(first, failure),
    ensures
        doomed(attempt(first, next), failure),
    decreases first,
{
    if let Dialogue::Turn(call, rest) = first {
        let later = attempt(first, next)->Turn_1;
        assert forall|reply: Reply|
            #![trigger later(reply)]
            plausible(Event { call, reply }) implies doomed(later(reply), failure) by {
            assert(later(reply) == attempt(rest(reply), next));
            lemma_doomed_attempt(rest(reply), next, failure);
        }
    }
}

/// What spoils and goes on with what spoils, spoils.
proof fn lemma_spoils_attempt<A, B>(
    first: Dialogue<Result<A, Os9Failure>>,
    next: spec_fn(A) -> Dialogue<Result<B, Os9Failure>>,
)
    requires
        spoils(first),
        forall|result: A| spoils(#[trigger] next(result)),
    ensures
        spoils(attempt(first, next)),
    decreases first,
{
    match first {
        Dialogue::Over(outcome) => {
            if let Ok(result) = outcome {
                assert(spoils(next(result)));
            }
        },
        Dialogue::Turn(call, rest) => {
            let later = attempt(first, next)->Turn_1;
            assert forall|reply: Reply|
                #![trigger later(reply)]
                plausible(Event { call, reply }) implies (if broken(reply) {
                lost(later(reply))
            } else {
                spoils(later(reply))
            }) by {
                assert(later(reply) == attempt(rest(reply), next));
                if broken(reply) {
                    let failure = choose|failure: Os9Failure| #[trigger]
                        doomed(rest(reply), failure);
                    lemma_doomed_attempt(rest(reply), next, failure);
                } else {
                    lemma_spoils_attempt(rest(reply), next);
                }
            }
        },
    }
}

/// The same for whatever comes next where it succeeds.
proof fn lemma_try<A, B>(first: Dialogue<Result<A, Os9Failure>>)
    requires
        spoils(first),
    ensures
        forall|next: spec_fn(A) -> Dialogue<Result<B, Os9Failure>>|
            (forall|result: A| spoils(#[trigger] next(result))) ==> spoils(
                #[trigger] attempt(first, next),
            ),
{
    assert forall|next: spec_fn(A) -> Dialogue<Result<B, Os9Failure>>|
        (forall|result: A| spoils(#[trigger] next(result))) implies spoils(
        #[trigger] attempt(first, next),
    ) by {
        lemma_spoils_attempt(first, next);
    }
}

/// A step of a session that heeds what breaks, and what comes next.
proof fn lemma_spoils_step<A, B>(
    name: Seq<char>,
    first: Dialogue<Result<A, Failure>>,
    next: spec_fn(A) -> Dialogue<Result<B, Os9Failure>>,
)
    requires
        heeds(first),
        forall|result: A| spoils(#[trigger] next(result)),
    ensures
        spoils(service::step(name, first, next)),
    decreases first,
{
    match first {
        Dialogue::Over(outcome) => {
            if let Ok(result) = outcome {
                assert(spoils(next(result)));
            }
        },
        Dialogue::Turn(call, rest) => {
            let later = service::step(name, first, next)->Turn_1;
            assert forall|reply: Reply|
                #![trigger later(reply)]
                plausible(Event { call, reply }) implies (if broken(reply) {
                lost(later(reply))
            } else {
                spoils(later(reply))
            }) by {
                assert(later(reply) == service::step(name, rest(reply), next));
                if broken(reply) {
                    let error = rest(reply)->Over_0->Err_0;
                    assert(tells_of(error, reply));
                    assert(doomed(later(reply), Os9Failure::Stub { step: name, error }));
                } else {
                    lemma_spoils_step(name, rest(reply), next);
                }
            }
        },
    }
}

/// The same for whatever comes next.
proof fn lemma_step<A, B>(first: Dialogue<Result<A, Failure>>)
    requires
        heeds(first),
    ensures
        forall|name: Seq<char>, next: spec_fn(A) -> Dialogue<Result<B, Os9Failure>>|
            (forall|result: A| spoils(#[trigger] next(result))) ==> spoils(
                #[trigger] service::step(name, first, next),
            ),
{
    assert forall|name: Seq<char>, next: spec_fn(A) -> Dialogue<Result<B, Os9Failure>>|
        (forall|result: A| spoils(#[trigger] next(result))) implies spoils(
        #[trigger] service::step(name, first, next),
    ) by {
        lemma_spoils_step(name, first, next);
    }
}

/// Showing a line, and what comes next.
proof fn lemma_traced<B>(trace: bool, line: Seq<char>)
    ensures
        forall|next: spec_fn(()) -> Dialogue<Result<B, Os9Failure>>|
            spoils(next(())) ==> spoils(#[trigger] chain(service::os9_trace(trace, line), next)),
        forall|next: spec_fn(()) -> Dialogue<Result<B, Os9Failure>>, failure: Os9Failure|
            doomed(next(()), failure) ==> #[trigger] doomed(
                chain(service::os9_trace(trace, line), next),
                failure,
            ),
{
    let first = service::os9_trace(trace, line);
    assert forall|next: spec_fn(()) -> Dialogue<Result<B, Os9Failure>>| spoils(next(())) implies
        spoils(#[trigger] chain(first, next)) by {
        lemma_after_line(trace, line, next);
    }
    assert forall|next: spec_fn(()) -> Dialogue<Result<B, Os9Failure>>, failure: Os9Failure|
        doomed(next(()), failure) implies #[trigger] doomed(chain(first, next), failure) by {
        lemma_after_line(trace, line, next);
    }
}

/// What is left after a line is what comes next.
proof fn lemma_after_line<B>(
    trace: bool,
    line: Seq<char>,
    next: spec_fn(()) -> Dialogue<Result<B, Os9Failure>>,
)
    ensures
        spoils(next(())) ==> spoils(chain(service::os9_trace(trace, line), next)),
        forall|failure: Os9Failure|
            doomed(next(()), failure) ==> #[trigger] doomed(
                chain(service::os9_trace(trace, line), next),
                failure,
            ),
{
    let first = service::os9_trace(trace, line);
    let whole = chain(first, next);
    if trace {
        let call = Call::Note(line);
        let rest = first->Turn_1;
        let later = whole->Turn_1;
        assert forall|reply: Reply| #[trigger] later(reply) == next(()) by {
            assert(later(reply) == chain(rest(reply), next));
            assert(rest(reply) == chain(
                Dialogue::Over(reply),
                |reply: Reply| Dialogue::<()>::Over(()),
            ));
            assert(rest(reply) == Dialogue::<()>::Over(()));
        }
        assert forall|reply: Reply| plausible(Event { call, reply }) implies !#[trigger] broken(
            reply,
        ) by {}
        assert(whole->Turn_0 == call);
    } else {
        assert(whole == next(()));
    }
}

/// Bringing a path to the player.
proof fn lemma_place_path(settings: Settings, path: Seq<char>, steps: PathSteps)
    ensures
        spoils(service::place_path(settings, path, steps)),
{
    reveal(service::place_path);
    let bytes = path_bytes(path);
    lemma_select(settings, 0);
    lemma_allocate_buffer(settings, bytes.len());
    lemma_write(settings, bytes);
    lemma_step::<(), u32>(stub::write(settings, bytes));
    lemma_step::<(usize, u32), u32>(stub::allocate_buffer(settings, bytes.len()));
    lemma_step::<(), u32>(stub::set_address(settings, 0));
}

/// Making an OS-9 call.
proof fn lemma_plain_call(
    settings: Settings,
    trace: bool,
    line: Seq<char>,
    call: u16,
    calling: Seq<char>,
)
    ensures
        spoils(service::plain_call(settings, trace, line, call, calling)),
{
    reveal(service::plain_call);
    lemma_os9_call(settings, call, 0);
    lemma_step::<u32, bool>(stub::os9_call(settings, call, 0));
    lemma_traced::<bool>(trace, line);
}

/// Making an OS-9 call with registers.
proof fn lemma_call_with(
    settings: Settings,
    trace: bool,
    line: Seq<char>,
    mask: u32,
    values: Seq<u32>,
    setting: Seq<char>,
    call: u16,
    calling: Seq<char>,
)
    ensures
        spoils(service::call_with(settings, trace, line, mask, values, setting, call, calling)),
{
    reveal(service::call_with);
    lemma_set_registers(settings, mask, values);
    lemma_plain_call(settings, trace, line, call, calling);
    lemma_step::<(), bool>(stub::set_registers(settings, mask, values));
}

/// Fetching what was read.
proof fn lemma_fetch(
    settings: Settings,
    buffer: u32,
    limit: nat,
    selecting: Seq<char>,
    reading: Seq<char>,
    addressing: Seq<char>,
    fetching: Seq<char>,
)
    ensures
        spoils(
            service::fetch(settings, buffer, limit, selecting, reading, addressing, fetching),
        ),
{
    reveal(service::fetch);
    let mask = REG_D0 | REG_D1;
    lemma_select(settings, mask);
    lemma_select(settings, buffer);
    lemma_read(settings, 8);
    assert forall|size: nat| heeds(#[trigger] stub::read(settings, size)) by {
        lemma_read(settings, size);
    }
    assert forall|
        name: Seq<char>,
        size: nat,
        next: spec_fn(Seq<u8>) -> Dialogue<Result<Seq<u8>, Os9Failure>>,
    | (forall|result: Seq<u8>| spoils(#[trigger] next(result))) implies spoils(
        #[trigger] service::step(name, stub::read(settings, size), next),
    ) by {
        lemma_spoils_step(name, stub::read(settings, size), next);
    }
    lemma_step::<(), Seq<u8>>(stub::set_address(settings, buffer));
    lemma_step::<(), Seq<u8>>(stub::select_registers(settings, mask));
}

/// Closing.
proof fn lemma_close<A>(settings: Settings, path: Seq<char>, trace: bool, closing: Seq<char>)
    ensures
        forall|work: Result<A, Os9Failure>|
            spoils(#[trigger] service::close(settings, path, trace, work, closing)),
        forall|failure: Os9Failure|
            doomed(
                #[trigger] service::close(
                    settings,
                    path,
                    trace,
                    Err::<A, Os9Failure>(failure),
                    closing,
                ),
                failure,
            ),
{
    reveal(service::close);
    let call = stub::os9_call(settings, OS9_I_CLOSE, 0);
    lemma_os9_call(settings, OS9_I_CLOSE, 0);
    lemma_traced::<A>(trace, call_line("I$Close"@, path));
    assert forall|work: Result<A, Os9Failure>| spoils(
        #[trigger] service::close(settings, path, trace, work, closing),
    ) by {
        lemma_closed(call, work, closing);
    }
    assert forall|failure: Os9Failure| doomed(
        #[trigger] service::close(settings, path, trace, Err::<A, Os9Failure>(failure), closing),
        failure,
    ) by {
        lemma_closed(call, Err::<A, Os9Failure>(failure), closing);
    }
}

/// What the call that closes makes of the work.
proof fn lemma_closed<A>(
    call: Dialogue<Result<u32, Failure>>,
    work: Result<A, Os9Failure>,
    closing: Seq<char>,
)
    requires
        heeds(call),
    ensures
        ({
            let next = |closed: Result<u32, Failure>|
                match (work, closed) {
                    (Ok(_), Err(error)) => Dialogue::Over(
                        Err(Os9Failure::Stub { step: closing, error }),
                    ),
                    _ => Dialogue::Over(work),
                };
            &&& spoils(chain(call, next))
            &&& work matches Err(failure) ==> doomed(chain(call, next), failure)
        }),
    decreases call,
{
    let next = |closed: Result<u32, Failure>|
        match (work, closed) {
            (Ok(_), Err(error)) => Dialogue::Over(Err(Os9Failure::Stub { step: closing, error })),
            _ => Dialogue::Over(work),
        };
    if let Dialogue::Turn(first, rest) = call {
        let later = chain(call, next)->Turn_1;
        assert forall|reply: Reply|
            #![trigger later(reply)]
            plausible(Event { call: first, reply }) implies (if broken(reply) {
            lost(later(reply))
        } else {
            spoils(later(reply))
        }) by {
            assert(later(reply) == chain(rest(reply), next));
            if broken(reply) {
                let error = rest(reply)->Over_0->Err_0;
                match work {
                    Ok(_) => {
                        assert(doomed(later(reply), Os9Failure::Stub { step: closing, error }));
                    },
                    Err(failure) => {
                        assert(doomed(later(reply), failure));
                    },
                }
            } else {
                lemma_closed(rest(reply), work, closing);
            }
        }
        if let Err(failure) = work {
            assert forall|reply: Reply|
                #![trigger later(reply)]
                plausible(Event { call: first, reply }) implies doomed(later(reply), failure) by {
                assert(later(reply) == chain(rest(reply), next));
                if broken(reply) {
                    assert(doomed(later(reply), failure));
                } else {
                    lemma_closed(rest(reply), work, closing);
                }
            }
        }
    }
}

/// Reading the rest of an open directory.
proof fn lemma_directory_data(
    settings: Settings,
    path: Seq<char>,
    read_size: nat,
    trace: bool,
    buffer: u32,
    data: Seq<u8>,
)
    ensures
        spoils(service::directory_data(settings, path, read_size, trace, buffer, data)),
    decreases usize::MAX - data.len(),
{
    let line = sized_call_line("I$Read"@, path, read_size, " bytes requested)"@);
    let values = seq![read_size as u32];
    let setting = "setting registers for OS-9 directory read"@;
    let calling = "reading OS-9 directory"@;
    lemma_call_with(settings, trace, line, REG_D1, values, setting, OS9_I_READ, calling);
    let fetching = service::fetch(
        settings,
        buffer,
        read_size,
        "selecting OS-9 directory result registers"@,
        "reading OS-9 directory result registers"@,
        "selecting OS-9 directory data buffer"@,
        "reading OS-9 directory data from Stub"@,
    );
    lemma_fetch(
        settings,
        buffer,
        read_size,
        "selecting OS-9 directory result registers"@,
        "reading OS-9 directory result registers"@,
        "selecting OS-9 directory data buffer"@,
        "reading OS-9 directory data from Stub"@,
    );
    assert forall|bytes: Seq<u8>|
        bytes.len() > 0 && data.len() + bytes.len() <= usize::MAX implies spoils(
        service::directory_data(
            settings,
            path,
            read_size,
            trace,
            buffer,
            #[trigger] (data + bytes),
        ),
    ) by {
        lemma_directory_data(settings, path, read_size, trace, buffer, data + bytes);
    }
    lemma_try::<Seq<u8>, Seq<u8>>(fetching);
    lemma_try::<bool, Seq<u8>>(
        service::call_with(
            settings,
            trace,
            line,
            REG_D1,
            values,
            setting,
            OS9_I_READ,
            calling,
        ),
    );
}

/// Reading the rest of an open file.
proof fn lemma_file_data(
    settings: Settings,
    path: Seq<char>,
    chunk_size: nat,
    trace: bool,
    buffer: u32,
    data: Seq<u8>,
)
    ensures
        spoils(service::file_data(settings, path, chunk_size, trace, buffer, data)),
    decreases usize::MAX - data.len(),
{
    let line = sized_call_line("I$Read"@, path, chunk_size, " bytes requested)"@);
    let calling = "reading OS-9 source file"@;
    let values = seq![chunk_size as u32];
    lemma_plain_call(settings, trace, line, OS9_I_READ, calling);
    let fetching = service::fetch(
        settings,
        buffer,
        chunk_size,
        "selecting OS-9 file result registers"@,
        "reading OS-9 file result registers"@,
        "selecting OS-9 file data buffer"@,
        "reading OS-9 file data from Stub"@,
    );
    lemma_fetch(
        settings,
        buffer,
        chunk_size,
        "selecting OS-9 file result registers"@,
        "reading OS-9 file result registers"@,
        "selecting OS-9 file data buffer"@,
        "reading OS-9 file data from Stub"@,
    );
    assert forall|bytes: Seq<u8>|
        bytes.len() > 0 && data.len() + bytes.len() <= usize::MAX implies spoils(
        service::file_data(settings, path, chunk_size, trace, buffer, #[trigger] (data + bytes)),
    ) by {
        lemma_file_data(settings, path, chunk_size, trace, buffer, data + bytes);
    }
    lemma_set_registers(settings, REG_D1, values);
    lemma_step::<(), Seq<u8>>(stub::set_registers(settings, REG_D1, values));
    lemma_try::<Seq<u8>, Seq<u8>>(fetching);
    lemma_try::<bool, Seq<u8>>(
        service::plain_call(settings, trace, line, OS9_I_READ, calling),
    );
}

/// Reading the error code of a failed call.
proof fn lemma_error_code(settings: Settings, selecting: Seq<char>, reading: Seq<char>)
    ensures
        spoils(service::error_code(settings, selecting, reading)),
{
    reveal(service::error_code);
    lemma_select(settings, REG_D1);
    lemma_read(settings, 4);
    lemma_step::<Seq<u8>, u32>(stub::read(settings, 4));
    lemma_step::<(), u32>(stub::select_registers(settings, REG_D1));
}

/// Writing one chunk.
proof fn lemma_put_chunk(
    settings: Settings,
    path: Seq<char>,
    trace: bool,
    buffer: u32,
    chunk: Seq<u8>,
)
    ensures
        spoils(service::put_chunk(settings, path, trace, buffer, chunk)),
{
    reveal(service::put_chunk);
    let mask = REG_D1 | REG_A0;
    let values = seq![chunk.len() as u32, buffer];
    let line = sized_call_line("I$Write"@, path, chunk.len(), " bytes)"@);
    let calling = "writing OS-9 destination file"@;
    let selecting = "selecting OS-9 write error register"@;
    let reading = "reading OS-9 write error register"@;
    lemma_set_registers(settings, mask, values);
    lemma_select(settings, buffer);
    lemma_write(settings, chunk);
    lemma_plain_call(settings, trace, line, OS9_I_WRITE, calling);
    lemma_error_code(settings, selecting, reading);
    lemma_try::<u32, ()>(service::error_code(settings, selecting, reading));
    lemma_try::<bool, ()>(service::plain_call(settings, trace, line, OS9_I_WRITE, calling));
    lemma_step::<(), ()>(stub::write(settings, chunk));
    lemma_step::<(), ()>(stub::set_address(settings, buffer));
    lemma_step::<(), ()>(stub::set_registers(settings, mask, values));
}

/// Writing data in chunks.
proof fn lemma_put_chunks(
    settings: Settings,
    path: Seq<char>,
    chunk_size: nat,
    trace: bool,
    buffer: u32,
    data: Seq<u8>,
)
    ensures
        spoils(service::put_chunks(settings, path, chunk_size, trace, buffer, data)),
    decreases data.len(),
{
    if data.len() > 0 && chunk_size > 0 {
        let count = stub::chunk_length(data.len(), chunk_size) as int;
        let chunk = data.take(count);
        lemma_put_chunk(settings, path, trace, buffer, chunk);
        lemma_put_chunks(settings, path, chunk_size, trace, buffer, data.skip(count));
        lemma_try::<(), ()>(service::put_chunk(settings, path, trace, buffer, chunk));
    }
}

/// Work that spoils, and closing after it.
proof fn lemma_work<A>(
    settings: Settings,
    path: Seq<char>,
    trace: bool,
    closing: Seq<char>,
    work: Dialogue<Result<A, Os9Failure>>,
)
    requires
        spoils(work),
    ensures
        spoils(
            chain(
                work,
                |work: Result<A, Os9Failure>| service::close(settings, path, trace, work, closing),
            ),
        ),
{
    let next = |work: Result<A, Os9Failure>|
        service::close(settings, path, trace, work, closing);
    lemma_close::<A>(settings, path, trace, closing);
    assert forall|outcome: Result<A, Os9Failure>| spoils(#[trigger] next(outcome)) by {
        assert(spoils(service::close(settings, path, trace, outcome, closing)));
    }
    assert forall|failure: Os9Failure| doomed(#[trigger] next(Err(failure)), failure) by {
        let outcome = Err::<A, Os9Failure>(failure);
        assert(doomed(service::close(settings, path, trace, outcome, closing), failure));
    }
    lemma_spoils_chain(work, next);
}

/// Reading an open directory.
proof fn lemma_read_open_directory(
    settings: Settings,
    path: Seq<char>,
    read_size: nat,
    trace: bool,
    buffer: u32,
)
    ensures
        spoils(service::read_open_directory(settings, path, read_size, trace, buffer)),
{
    reveal(service::read_open_directory);
    let line = call_line("I$GetStt"@, path);
    let mask = REG_D1 | REG_A0;
    let values = seq![0, buffer];
    let setting = "setting registers for OS-9 directory status"@;
    let calling = "querying OS-9 directory status"@;
    let work = service::directory_data(settings, path, read_size, trace, buffer, seq![]);
    lemma_call_with(settings, trace, line, mask, values, setting, OS9_I_GETSTT, calling);
    lemma_directory_data(settings, path, read_size, trace, buffer, seq![]);
    lemma_work(settings, path, trace, "closing OS-9 directory"@, work);
    lemma_read(settings, 1);
    lemma_step::<Seq<u8>, Seq<u8>>(stub::read(settings, 1));
    lemma_try::<bool, Seq<u8>>(
        service::call_with(
            settings,
            trace,
            line,
            mask,
            values,
            setting,
            OS9_I_GETSTT,
            calling,
        ),
    );
}

/// Reading a directory.
proof fn lemma_read_directory(
    settings: Settings,
    path: Seq<char>,
    read_size: nat,
    trace: bool,
)
    ensures
        spoils(service::read_directory(settings, path, read_size, trace)),
{
    let line = call_line("I$Open"@, path) + " (directory)"@;
    let mask = REG_D0 | REG_A0;
    let setting = "setting registers for OS-9 directory open"@;
    let calling = "opening OS-9 directory"@;
    let steps = service::directory_steps();
    lemma_place_path(settings, path, steps);
    assert forall|buffer: u32| spoils(
        #[trigger] service::read_open_directory(settings, path, read_size, trace, buffer),
    ) by {
        lemma_read_open_directory(settings, path, read_size, trace, buffer);
    }
    lemma_allocate_buffer(settings, read_size);
    lemma_step::<(usize, u32), Seq<u8>>(stub::allocate_buffer(settings, read_size));
    lemma_any_call::<Seq<u8>>(settings, trace, line, mask, setting, OS9_I_OPEN, calling);
    lemma_try::<u32, Seq<u8>>(service::place_path(settings, path, steps));
}

/// An OS-9 call with any registers, and what comes next.
proof fn lemma_any_call<B>(
    settings: Settings,
    trace: bool,
    line: Seq<char>,
    mask: u32,
    setting: Seq<char>,
    call: u16,
    calling: Seq<char>,
)
    ensures
        forall|values: Seq<u32>, next: spec_fn(bool) -> Dialogue<Result<B, Os9Failure>>|
            (forall|failed: bool| spoils(#[trigger] next(failed))) ==> spoils(
                #[trigger] attempt(
                    service::call_with(
                        settings,
                        trace,
                        line,
                        mask,
                        values,
                        setting,
                        call,
                        calling,
                    ),
                    next,
                ),
            ),
{
    assert forall|values: Seq<u32>, next: spec_fn(bool) -> Dialogue<Result<B, Os9Failure>>|
        (forall|failed: bool| spoils(#[trigger] next(failed))) implies spoils(
        #[trigger] attempt(
            service::call_with(settings, trace, line, mask, values, setting, call, calling),
            next,
        ),
    ) by {
        lemma_call_with(settings, trace, line, mask, values, setting, call, calling);
        lemma_spoils_attempt(
            service::call_with(settings, trace, line, mask, values, setting, call, calling),
            next,
        );
    }
}

/// Reading a file.
proof fn lemma_get_file(settings: Settings, path: Seq<char>, chunk_size: nat, trace: bool)
    ensures
        spoils(service::get_file(settings, path, chunk_size, trace)),
{
    let line = call_line("I$Open"@, path) + " (read)"@;
    let mask = REG_D0 | REG_A0;
    let setting = "setting registers for OS-9 file open"@;
    let calling = "opening OS-9 source file"@;
    let steps = service::source_steps();
    lemma_place_path(settings, path, steps);
    assert forall|buffer: u32| spoils(
        chain(
            #[trigger] service::read_open_file(settings, path, chunk_size, trace, buffer),
            |work: Result<Seq<u8>, Os9Failure>|
                service::close(settings, path, trace, work, "closing OS-9 source file"@),
        ),
    ) by {
        reveal(service::read_open_file);
        let values = seq![chunk_size as u32, buffer];
        let registers = REG_D1 | REG_A0;
        lemma_file_data(settings, path, chunk_size, trace, buffer, seq![]);
        lemma_set_registers(settings, registers, values);
        lemma_step::<(), Seq<u8>>(stub::set_registers(settings, registers, values));
        let work = service::read_open_file(settings, path, chunk_size, trace, buffer);
        lemma_work(settings, path, trace, "closing OS-9 source file"@, work);
    }
    lemma_allocate_buffer(settings, chunk_size);
    lemma_step::<(usize, u32), Seq<u8>>(stub::allocate_buffer(settings, chunk_size));
    lemma_any_call::<Seq<u8>>(settings, trace, line, mask, setting, OS9_I_OPEN, calling);
    lemma_try::<u32, Seq<u8>>(service::place_path(settings, path, steps));
}

/// Putting a file.
proof fn lemma_put_file(
    settings: Settings,
    data: Seq<u8>,
    path: Seq<char>,
    chunk_size: nat,
    trace: bool,
)
    ensures
        spoils(service::put_file(settings, data, path, chunk_size, trace)),
{
    let line = call_line("I$Create"@, path);
    let mask = REG_D0 | REG_D1 | REG_A0;
    let setting = "setting registers for OS-9 file create"@;
    let calling = "creating OS-9 destination file"@;
    let steps = service::destination_steps();
    lemma_place_path(settings, path, steps);
    assert forall|buffer: u32| spoils(
        chain(
            #[trigger] service::put_chunks(settings, path, chunk_size, trace, buffer, data),
            |work: Result<(), Os9Failure>|
                service::close(settings, path, trace, work, "closing OS-9 destination file"@),
        ),
    ) by {
        let work = service::put_chunks(settings, path, chunk_size, trace, buffer, data);
        lemma_put_chunks(settings, path, chunk_size, trace, buffer, data);
        lemma_work(settings, path, trace, "closing OS-9 destination file"@, work);
    }
    lemma_allocate_buffer(settings, chunk_size);
    lemma_step::<(usize, u32), ()>(stub::allocate_buffer(settings, chunk_size));
    lemma_any_call::<()>(settings, trace, line, mask, setting, OS9_I_CREATE, calling);
    lemma_try::<u32, ()>(service::place_path(settings, path, steps));
}

/// Deleting a file.
proof fn lemma_delete_file(settings: Settings, path: Seq<char>, trace: bool)
    ensures
        spoils(service::delete_file(settings, path, trace)),
{
    let line = call_line("I$Delete"@, path);
    let mask = REG_D0 | REG_A0;
    let setting = "setting registers for OS-9 file delete"@;
    let calling = "deleting OS-9 file"@;
    let steps = service::deletion_steps();
    let selecting = "selecting OS-9 delete error register"@;
    let reading = "reading OS-9 delete error register"@;
    lemma_place_path(settings, path, steps);
    lemma_error_code(settings, selecting, reading);
    lemma_try::<u32, ()>(service::error_code(settings, selecting, reading));
    lemma_any_call::<()>(settings, trace, line, mask, setting, OS9_I_DELETE, calling);
    lemma_try::<u32, ()>(service::place_path(settings, path, steps));
}

/// No OS-9 operation succeeds if a call of it breaks, in whatever step and also
/// while the file or directory is closed.
pub proof fn law_broken_calls_spoil_every_operation(
    settings: Settings,
    data: Seq<u8>,
    path: Seq<char>,
    size: nat,
    trace: bool,
)
    ensures
        spoils(service::read_directory(settings, path, size, trace)),
        spoils(service::list_directory(settings, path, size, trace)),
        spoils(service::get_file(settings, path, size, trace)),
        spoils(service::put_file(settings, data, path, size, trace)),
        spoils(service::delete_file(settings, path, trace)),
{
    lemma_read_directory(settings, path, size, trace);
    lemma_try::<Seq<u8>, (Seq<Seq<char>>, nat)>(
        service::read_directory(settings, path, size, trace),
    );
    lemma_get_file(settings, path, size, trace);
    lemma_put_file(settings, data, path, size, trace);
    lemma_delete_file(settings, path, trace);
}

} // verus!
