//! How the operations on files conduct themselves: like all others they keep to
//! the pacing, and a trace of the line changes nothing about them.

use vstd::prelude::*;

use crate::conduct::{
    differ_in_trace, lemma_allocate_buffer, lemma_call, lemma_os9_call, lemma_read,
    lemma_select_registers, lemma_set_address, lemma_set_registers, lemma_then, lemma_try,
    lemma_twins_chain, lemma_write, slowed, twins,
};
use crate::dialogue::{attempt, chain, Dialogue};
use crate::error::Failure;
use crate::frame::{value32, REG_A0, REG_D0, REG_D1};
use crate::line::Call;
use crate::service;
use crate::service::{
    call_line, path_bytes, sized_call_line, Os9Failure, PathSteps, OS9_I_CLOSE, OS9_I_CREATE,
    OS9_I_DELETE, OS9_I_GETSTT, OS9_I_OPEN, OS9_I_READ, OS9_I_WRITE,
};
use crate::stub;
use crate::stub::Settings;

verus! {

/// Steps that go on like twins where they succeed are twins.
proof fn lemma_step<A, B>(
    slow: bool,
    quiet: Dialogue<Result<A, Failure>>,
    traced: Dialogue<Result<A, Failure>>,
)
    requires
        twins(slow, quiet, traced),
    ensures
        forall|
            name: Seq<char>,
            next: spec_fn(A) -> Dialogue<Result<B, Os9Failure>>,
            traced_next: spec_fn(A) -> Dialogue<Result<B, Os9Failure>>,
        |
            (forall|result: A| twins(slow, #[trigger] next(result), traced_next(result)))
                ==> twins(
                slow,
                #[trigger] service::step(name, quiet, next),
                #[trigger] service::step(name, traced, traced_next),
            ),
{
    assert forall|
        name: Seq<char>,
        next: spec_fn(A) -> Dialogue<Result<B, Os9Failure>>,
        traced_next: spec_fn(A) -> Dialogue<Result<B, Os9Failure>>,
    |
        (forall|result: A| twins(slow, #[trigger] next(result), traced_next(result))) implies twins(
        slow,
        #[trigger] service::step(name, quiet, next),
        #[trigger] service::step(name, traced, traced_next),
    ) by {
        let go_on = |outcome: Result<A, Failure>|
            match outcome {
                Ok(result) => next(result),
                Err(error) => Dialogue::Over(Err(Os9Failure::Stub { step: name, error })),
            };
        let traced_go_on = |outcome: Result<A, Failure>|
            match outcome {
                Ok(result) => traced_next(result),
                Err(error) => Dialogue::Over(Err(Os9Failure::Stub { step: name, error })),
            };
        assert forall|outcome: Result<A, Failure>| twins(
            slow,
            #[trigger] go_on(outcome),
            traced_go_on(outcome),
        ) by {
            if let Ok(result) = outcome {
                assert(twins(slow, next(result), traced_next(result)));
            }
        }
        lemma_twins_chain(slow, quiet, traced, go_on, traced_go_on);
        assert(service::step(name, quiet, next) == chain(quiet, go_on));
        assert(service::step(name, traced, traced_next) == chain(traced, traced_go_on));
    }
}

/// Showing a line about a call.
pub proof fn lemma_os9_trace(slow: bool, enabled: bool, line: Seq<char>)
    ensures
        twins(slow, service::os9_trace(enabled, line), service::os9_trace(enabled, line)),
{
    if enabled {
        lemma_call::<()>(slow, Call::Note(line));
    }
}

/// Bringing a path to the player.
proof fn lemma_place_path(
    quiet: Settings,
    traced: Settings,
    path: Seq<char>,
    steps: PathSteps,
)
    requires
        differ_in_trace(quiet, traced),
    ensures
        twins(
            slowed(quiet),
            service::place_path(quiet, path, steps),
            service::place_path(traced, path, steps),
        ),
{
    reveal(service::place_path);
    let bytes = path_bytes(path);
    lemma_set_address(quiet, traced, 0);
    lemma_allocate_buffer(quiet, traced, bytes.len());
    lemma_write(quiet, traced, bytes);
    lemma_step::<(), u32>(
        slowed(quiet),
        stub::write(quiet, bytes),
        stub::write(traced, bytes),
    );
    lemma_step::<(usize, u32), u32>(
        slowed(quiet),
        stub::allocate_buffer(quiet, bytes.len()),
        stub::allocate_buffer(traced, bytes.len()),
    );
    lemma_step::<(), u32>(
        slowed(quiet),
        stub::set_address(quiet, 0),
        stub::set_address(traced, 0),
    );
}

/// A call with the registers as they are.
proof fn lemma_plain_call(
    quiet: Settings,
    traced: Settings,
    trace: bool,
    line: Seq<char>,
    call: u16,
    calling: Seq<char>,
)
    requires
        differ_in_trace(quiet, traced),
    ensures
        twins(
            slowed(quiet),
            service::plain_call(quiet, trace, line, call, calling),
            service::plain_call(traced, trace, line, call, calling),
        ),
{
    reveal(service::plain_call);
    lemma_os9_trace(slowed(quiet), trace, line);
    lemma_os9_call(quiet, traced, call, 0);
    lemma_step::<u32, bool>(
        slowed(quiet),
        stub::os9_call(quiet, call, 0),
        stub::os9_call(traced, call, 0),
    );
    lemma_then::<(), Result<bool, Os9Failure>>(
        slowed(quiet),
        service::os9_trace(trace, line),
        service::os9_trace(trace, line),
    );
}

/// A call with registers that are set before.
proof fn lemma_call_with(
    quiet: Settings,
    traced: Settings,
    trace: bool,
    line: Seq<char>,
    mask: u32,
    values: Seq<u32>,
    setting: Seq<char>,
    call: u16,
    calling: Seq<char>,
)
    requires
        differ_in_trace(quiet, traced),
    ensures
        twins(
            slowed(quiet),
            service::call_with(quiet, trace, line, mask, values, setting, call, calling),
            service::call_with(traced, trace, line, mask, values, setting, call, calling),
        ),
{
    reveal(service::call_with);
    lemma_set_registers(quiet, traced, mask, values);
    lemma_plain_call(quiet, traced, trace, line, call, calling);
    lemma_step::<(), bool>(
        slowed(quiet),
        stub::set_registers(quiet, mask, values),
        stub::set_registers(traced, mask, values),
    );
}

/// Fetching what a read left in a buffer.
proof fn lemma_fetch(
    quiet: Settings,
    traced: Settings,
    buffer: u32,
    limit: nat,
    selecting: Seq<char>,
    reading: Seq<char>,
    addressing: Seq<char>,
    fetching: Seq<char>,
)
    requires
        differ_in_trace(quiet, traced),
    ensures
        twins(
            slowed(quiet),
            service::fetch(quiet, buffer, limit, selecting, reading, addressing, fetching),
            service::fetch(traced, buffer, limit, selecting, reading, addressing, fetching),
        ),
{
    reveal(service::fetch);
    let slow = slowed(quiet);
    lemma_select_registers(quiet, traced, REG_D0 | REG_D1);
    lemma_read(quiet, traced, 8);
    lemma_set_address(quiet, traced, buffer);
    assert forall|registers: Seq<u8>| twins(
        slow,
        fetch_rest(
            quiet,
            buffer,
            (#[trigger] value32(registers.skip(4)) % 0x1_0000) as nat,
            addressing,
            fetching,
        ),
        fetch_rest(
            traced,
            buffer,
            (value32(registers.skip(4)) % 0x1_0000) as nat,
            addressing,
            fetching,
        ),
    ) by {
        let valid = (value32(registers.skip(4)) % 0x1_0000) as nat;
        lemma_fetch_rest(quiet, traced, buffer, valid, addressing, fetching);
    }
    lemma_step::<Seq<u8>, Seq<u8>>(
        slowed(quiet),
        stub::read(quiet, 8),
        stub::read(traced, 8),
    );
    lemma_step::<(), Seq<u8>>(
        slowed(quiet),
        stub::select_registers(quiet, REG_D0 | REG_D1),
        stub::select_registers(traced, REG_D0 | REG_D1),
    );
}

/// The part of fetching that comes after the registers were read.
spec fn fetch_rest(
    settings: Settings,
    buffer: u32,
    valid: nat,
    addressing: Seq<char>,
    fetching: Seq<char>,
) -> Dialogue<Result<Seq<u8>, Os9Failure>> {
    service::step(
        addressing,
        stub::set_address(settings, buffer),
        |_set: ()|
            service::step(
                fetching,
                stub::read(settings, valid),
                |bytes: Seq<u8>| Dialogue::Over(Ok(bytes)),
            ),
    )
}

/// That part.
proof fn lemma_fetch_rest(
    quiet: Settings,
    traced: Settings,
    buffer: u32,
    valid: nat,
    addressing: Seq<char>,
    fetching: Seq<char>,
)
    requires
        differ_in_trace(quiet, traced),
    ensures
        twins(
            slowed(quiet),
            fetch_rest(quiet, buffer, valid, addressing, fetching),
            fetch_rest(traced, buffer, valid, addressing, fetching),
        ),
{
    lemma_set_address(quiet, traced, buffer);
    lemma_read(quiet, traced, valid);
    lemma_step::<Seq<u8>, Seq<u8>>(
        slowed(quiet),
        stub::read(quiet, valid),
        stub::read(traced, valid),
    );
    lemma_step::<(), Seq<u8>>(
        slowed(quiet),
        stub::set_address(quiet, buffer),
        stub::set_address(traced, buffer),
    );
}

/// Closing a path.
proof fn lemma_close<A>(
    quiet: Settings,
    traced: Settings,
    path: Seq<char>,
    trace: bool,
    work: Result<A, Os9Failure>,
    closing: Seq<char>,
)
    requires
        differ_in_trace(quiet, traced),
    ensures
        twins(
            slowed(quiet),
            service::close(quiet, path, trace, work, closing),
            service::close(traced, path, trace, work, closing),
        ),
{
    reveal(service::close);
    let line = call_line("I$Close"@, path);
    lemma_os9_trace(slowed(quiet), trace, line);
    lemma_os9_call(quiet, traced, OS9_I_CLOSE, 0);
    lemma_then::<Result<u32, Failure>, Result<A, Os9Failure>>(
        slowed(quiet),
        stub::os9_call(quiet, OS9_I_CLOSE, 0),
        stub::os9_call(traced, OS9_I_CLOSE, 0),
    );
    lemma_then::<(), Result<A, Os9Failure>>(
        slowed(quiet),
        service::os9_trace(trace, line),
        service::os9_trace(trace, line),
    );
}

/// Closing a path after whatever came of the work.
proof fn lemma_then_close<A>(
    quiet: Settings,
    traced: Settings,
    path: Seq<char>,
    trace: bool,
    closing: Seq<char>,
)
    requires
        differ_in_trace(quiet, traced),
    ensures
        forall|work: Result<A, Os9Failure>|
            twins(
                slowed(quiet),
                #[trigger] service::close(quiet, path, trace, work, closing),
                service::close(traced, path, trace, work, closing),
            ),
{
    assert forall|work: Result<A, Os9Failure>| twins(
        slowed(quiet),
        #[trigger] service::close(quiet, path, trace, work, closing),
        service::close(traced, path, trace, work, closing),
    ) by {
        lemma_close(quiet, traced, path, trace, work, closing);
    }
}

/// Reading an open directory.
proof fn lemma_directory_data(
    quiet: Settings,
    traced: Settings,
    path: Seq<char>,
    read_size: nat,
    trace: bool,
    buffer: u32,
    data: Seq<u8>,
)
    requires
        differ_in_trace(quiet, traced),
    ensures
        twins(
            slowed(quiet),
            service::directory_data(quiet, path, read_size, trace, buffer, data),
            service::directory_data(traced, path, read_size, trace, buffer, data),
        ),
    decreases usize::MAX - data.len(),
{
    let line = sized_call_line("I$Read"@, path, read_size, " bytes requested)"@);
    let values = seq![read_size as u32];
    let setting = "setting registers for OS-9 directory read"@;
    let calling = "reading OS-9 directory"@;
    let selecting = "selecting OS-9 directory result registers"@;
    let reading = "reading OS-9 directory result registers"@;
    let addressing = "selecting OS-9 directory data buffer"@;
    let fetching = "reading OS-9 directory data from Stub"@;
    lemma_call_with(quiet, traced, trace, line, REG_D1, values, setting, OS9_I_READ, calling);
    lemma_fetch(quiet, traced, buffer, read_size, selecting, reading, addressing, fetching);
    assert forall|bytes: Seq<u8>|
        0 < bytes.len() && data.len() + bytes.len() <= usize::MAX implies twins(
        slowed(quiet),
        service::directory_data(quiet, path, read_size, trace, buffer, #[trigger] (data + bytes)),
        service::directory_data(traced, path, read_size, trace, buffer, data + bytes),
    ) by {
        lemma_directory_data(quiet, traced, path, read_size, trace, buffer, data + bytes);
    }
    lemma_try::<Seq<u8>, Seq<u8>, Os9Failure>(
        slowed(quiet),
        service::fetch(quiet, buffer, read_size, selecting, reading, addressing, fetching),
        service::fetch(traced, buffer, read_size, selecting, reading, addressing, fetching),
    );
    lemma_try::<bool, Seq<u8>, Os9Failure>(
        slowed(quiet),
        service::call_with(quiet, trace, line, REG_D1, values, setting, OS9_I_READ, calling),
        service::call_with(traced, trace, line, REG_D1, values, setting, OS9_I_READ, calling),
    );
}

/// Reading a directory that is open.
proof fn lemma_open_directory(
    quiet: Settings,
    traced: Settings,
    path: Seq<char>,
    read_size: nat,
    trace: bool,
    buffer: u32,
)
    requires
        differ_in_trace(quiet, traced),
    ensures
        twins(
            slowed(quiet),
            service::read_open_directory(quiet, path, read_size, trace, buffer),
            service::read_open_directory(traced, path, read_size, trace, buffer),
        ),
{
    reveal(service::read_open_directory);
    let line = call_line("I$GetStt"@, path);
    let values = seq![0, buffer];
    let setting = "setting registers for OS-9 directory status"@;
    let calling = "querying OS-9 directory status"@;
    lemma_call_with(
        quiet,
        traced,
        trace,
        line,
        REG_D1 | REG_A0,
        values,
        setting,
        OS9_I_GETSTT,
        calling,
    );
    lemma_read(quiet, traced, 1);
    lemma_directory_data(quiet, traced, path, read_size, trace, buffer, seq![]);
    lemma_then_close::<Seq<u8>>(quiet, traced, path, trace, "closing OS-9 directory"@);
    lemma_then::<Result<Seq<u8>, Os9Failure>, Result<Seq<u8>, Os9Failure>>(
        slowed(quiet),
        service::directory_data(quiet, path, read_size, trace, buffer, seq![]),
        service::directory_data(traced, path, read_size, trace, buffer, seq![]),
    );
    lemma_step::<Seq<u8>, Seq<u8>>(
        slowed(quiet),
        stub::read(quiet, 1),
        stub::read(traced, 1),
    );
    lemma_try::<bool, Seq<u8>, Os9Failure>(
        slowed(quiet),
        service::call_with(
            quiet,
            trace,
            line,
            REG_D1 | REG_A0,
            values,
            setting,
            OS9_I_GETSTT,
            calling,
        ),
        service::call_with(
            traced,
            trace,
            line,
            REG_D1 | REG_A0,
            values,
            setting,
            OS9_I_GETSTT,
            calling,
        ),
    );
}

/// Reading an open file.
proof fn lemma_file_data(
    quiet: Settings,
    traced: Settings,
    path: Seq<char>,
    chunk_size: nat,
    trace: bool,
    buffer: u32,
    data: Seq<u8>,
)
    requires
        differ_in_trace(quiet, traced),
    ensures
        twins(
            slowed(quiet),
            service::file_data(quiet, path, chunk_size, trace, buffer, data),
            service::file_data(traced, path, chunk_size, trace, buffer, data),
        ),
    decreases usize::MAX - data.len(),
{
    let line = sized_call_line("I$Read"@, path, chunk_size, " bytes requested)"@);
    let values = seq![chunk_size as u32];
    let calling = "reading OS-9 source file"@;
    let selecting = "selecting OS-9 file result registers"@;
    let reading = "reading OS-9 file result registers"@;
    let addressing = "selecting OS-9 file data buffer"@;
    let fetching = "reading OS-9 file data from Stub"@;
    lemma_plain_call(quiet, traced, trace, line, OS9_I_READ, calling);
    lemma_fetch(quiet, traced, buffer, chunk_size, selecting, reading, addressing, fetching);
    lemma_set_registers(quiet, traced, REG_D1, values);
    assert forall|bytes: Seq<u8>|
        0 < bytes.len() && data.len() + bytes.len() <= usize::MAX implies twins(
        slowed(quiet),
        service::file_data(quiet, path, chunk_size, trace, buffer, #[trigger] (data + bytes)),
        service::file_data(traced, path, chunk_size, trace, buffer, data + bytes),
    ) by {
        lemma_file_data(quiet, traced, path, chunk_size, trace, buffer, data + bytes);
    }
    lemma_step::<(), Seq<u8>>(
        slowed(quiet),
        stub::set_registers(quiet, REG_D1, values),
        stub::set_registers(traced, REG_D1, values),
    );
    lemma_try::<Seq<u8>, Seq<u8>, Os9Failure>(
        slowed(quiet),
        service::fetch(quiet, buffer, chunk_size, selecting, reading, addressing, fetching),
        service::fetch(traced, buffer, chunk_size, selecting, reading, addressing, fetching),
    );
    lemma_try::<bool, Seq<u8>, Os9Failure>(
        slowed(quiet),
        service::plain_call(quiet, trace, line, OS9_I_READ, calling),
        service::plain_call(traced, trace, line, OS9_I_READ, calling),
    );
}

/// Reading an open file from its beginning.
proof fn lemma_read_open_file(
    quiet: Settings,
    traced: Settings,
    path: Seq<char>,
    chunk_size: nat,
    trace: bool,
    buffer: u32,
)
    requires
        differ_in_trace(quiet, traced),
    ensures
        twins(
            slowed(quiet),
            service::read_open_file(quiet, path, chunk_size, trace, buffer),
            service::read_open_file(traced, path, chunk_size, trace, buffer),
        ),
{
    reveal(service::read_open_file);
    let values = seq![chunk_size as u32, buffer];
    lemma_set_registers(quiet, traced, REG_D1 | REG_A0, values);
    lemma_file_data(quiet, traced, path, chunk_size, trace, buffer, seq![]);
    lemma_step::<(), Seq<u8>>(
        slowed(quiet),
        stub::set_registers(quiet, REG_D1 | REG_A0, values),
        stub::set_registers(traced, REG_D1 | REG_A0, values),
    );
}

/// Reading an error code.
proof fn lemma_error_code(
    quiet: Settings,
    traced: Settings,
    selecting: Seq<char>,
    reading: Seq<char>,
)
    requires
        differ_in_trace(quiet, traced),
    ensures
        twins(
            slowed(quiet),
            service::error_code(quiet, selecting, reading),
            service::error_code(traced, selecting, reading),
        ),
{
    reveal(service::error_code);
    lemma_select_registers(quiet, traced, REG_D1);
    lemma_read(quiet, traced, 4);
    lemma_step::<Seq<u8>, u32>(
        slowed(quiet),
        stub::read(quiet, 4),
        stub::read(traced, 4),
    );
    lemma_step::<(), u32>(
        slowed(quiet),
        stub::select_registers(quiet, REG_D1),
        stub::select_registers(traced, REG_D1),
    );
}

/// Writing one chunk to the open file.
proof fn lemma_put_chunk(
    quiet: Settings,
    traced: Settings,
    path: Seq<char>,
    trace: bool,
    buffer: u32,
    chunk: Seq<u8>,
)
    requires
        differ_in_trace(quiet, traced),
    ensures
        twins(
            slowed(quiet),
            service::put_chunk(quiet, path, trace, buffer, chunk),
            service::put_chunk(traced, path, trace, buffer, chunk),
        ),
{
    reveal(service::put_chunk);
    let line = sized_call_line("I$Write"@, path, chunk.len(), " bytes)"@);
    let values = seq![chunk.len() as u32, buffer];
    let calling = "writing OS-9 destination file"@;
    let selecting = "selecting OS-9 write error register"@;
    let reading = "reading OS-9 write error register"@;
    lemma_set_registers(quiet, traced, REG_D1 | REG_A0, values);
    lemma_set_address(quiet, traced, buffer);
    lemma_write(quiet, traced, chunk);
    lemma_plain_call(quiet, traced, trace, line, OS9_I_WRITE, calling);
    lemma_error_code(quiet, traced, selecting, reading);
    lemma_try::<u32, (), Os9Failure>(
        slowed(quiet),
        service::error_code(quiet, selecting, reading),
        service::error_code(traced, selecting, reading),
    );
    lemma_try::<bool, (), Os9Failure>(
        slowed(quiet),
        service::plain_call(quiet, trace, line, OS9_I_WRITE, calling),
        service::plain_call(traced, trace, line, OS9_I_WRITE, calling),
    );
    lemma_step::<(), ()>(
        slowed(quiet),
        stub::write(quiet, chunk),
        stub::write(traced, chunk),
    );
    lemma_step::<(), ()>(
        slowed(quiet),
        stub::set_address(quiet, buffer),
        stub::set_address(traced, buffer),
    );
    lemma_step::<(), ()>(
        slowed(quiet),
        stub::set_registers(quiet, REG_D1 | REG_A0, values),
        stub::set_registers(traced, REG_D1 | REG_A0, values),
    );
}

/// Writing data to the open file.
proof fn lemma_put_chunks(
    quiet: Settings,
    traced: Settings,
    path: Seq<char>,
    chunk_size: nat,
    trace: bool,
    buffer: u32,
    data: Seq<u8>,
)
    requires
        differ_in_trace(quiet, traced),
    ensures
        twins(
            slowed(quiet),
            service::put_chunks(quiet, path, chunk_size, trace, buffer, data),
            service::put_chunks(traced, path, chunk_size, trace, buffer, data),
        ),
    decreases data.len(),
{
    if data.len() > 0 && chunk_size > 0 {
        let count = stub::chunk_length(data.len(), chunk_size) as int;
        let chunk = data.take(count);
        lemma_put_chunk(quiet, traced, path, trace, buffer, chunk);
        lemma_put_chunks(quiet, traced, path, chunk_size, trace, buffer, data.skip(count));
        lemma_try::<(), (), Os9Failure>(
            slowed(quiet),
            service::put_chunk(quiet, path, trace, buffer, chunk),
            service::put_chunk(traced, path, trace, buffer, chunk),
        );
    }
}

/// A call on a path that was brought to the player, and what comes next.
proof fn lemma_path_call<B>(
    quiet: Settings,
    traced: Settings,
    trace: bool,
    line: Seq<char>,
    mask: u32,
    setting: Seq<char>,
    call: u16,
    calling: Seq<char>,
)
    requires
        differ_in_trace(quiet, traced),
    ensures
        forall|
            values: Seq<u32>,
            next: spec_fn(bool) -> Dialogue<Result<B, Os9Failure>>,
            traced_next: spec_fn(bool) -> Dialogue<Result<B, Os9Failure>>,
        |
            (forall|refused: bool|
                twins(slowed(quiet), #[trigger] next(refused), traced_next(refused))) ==> twins(
                slowed(quiet),
                #[trigger] attempt(
                    service::call_with(
                        quiet,
                        trace,
                        line,
                        mask,
                        values,
                        setting,
                        call,
                        calling,
                    ),
                    next,
                ),
                #[trigger] attempt(
                    service::call_with(
                        traced,
                        trace,
                        line,
                        mask,
                        values,
                        setting,
                        call,
                        calling,
                    ),
                    traced_next,
                ),
            ),
{
    assert forall|
        values: Seq<u32>,
        next: spec_fn(bool) -> Dialogue<Result<B, Os9Failure>>,
        traced_next: spec_fn(bool) -> Dialogue<Result<B, Os9Failure>>,
    |
        (forall|refused: bool|
            twins(slowed(quiet), #[trigger] next(refused), traced_next(refused))) implies twins(
        slowed(quiet),
        #[trigger] attempt(
            service::call_with(
                quiet,
                trace,
                line,
                mask,
                values,
                setting,
                call,
                calling,
            ),
            next,
        ),
        #[trigger] attempt(
            service::call_with(
                traced,
                trace,
                line,
                mask,
                values,
                setting,
                call,
                calling,
            ),
            traced_next,
        ),
    ) by {
        lemma_call_with(quiet, traced, trace, line, mask, values, setting, call, calling);
        lemma_try::<bool, B, Os9Failure>(
            slowed(quiet),
            service::call_with(quiet, trace, line, mask, values, setting, call, calling),
            service::call_with(traced, trace, line, mask, values, setting, call, calling),
        );
    }
}

/// Reading a directory.
pub proof fn lemma_read_directory(
    quiet: Settings,
    traced: Settings,
    path: Seq<char>,
    read_size: nat,
    trace: bool,
)
    requires
        differ_in_trace(quiet, traced),
    ensures
        twins(
            slowed(quiet),
            service::read_directory(quiet, path, read_size, trace),
            service::read_directory(traced, path, read_size, trace),
        ),
{
    if stub::valid_chunk_size(read_size) && !service::holds_nul(path) {
        let slow = slowed(quiet);
        let steps = service::directory_steps();
        lemma_place_path(quiet, traced, path, steps);
        lemma_allocate_buffer(quiet, traced, read_size);
        assert forall|buffer: u32| twins(
            slow,
            #[trigger] service::read_open_directory(quiet, path, read_size, trace, buffer),
            service::read_open_directory(traced, path, read_size, trace, buffer),
        ) by {
            lemma_open_directory(quiet, traced, path, read_size, trace, buffer);
        }
        lemma_step::<(usize, u32), Seq<u8>>(
            slowed(quiet),
            stub::allocate_buffer(quiet, read_size),
            stub::allocate_buffer(traced, read_size),
        );
        lemma_path_call::<Seq<u8>>(
            quiet,
            traced,
            trace,
            call_line("I$Open"@, path) + " (directory)"@,
            REG_D0 | REG_A0,
            "setting registers for OS-9 directory open"@,
            OS9_I_OPEN,
            "opening OS-9 directory"@,
        );
        lemma_try::<u32, Seq<u8>, Os9Failure>(
            slowed(quiet),
            service::place_path(quiet, path, steps),
            service::place_path(traced, path, steps),
        );
    }
}

/// Showing a directory.
proof fn lemma_list_directory(
    quiet: Settings,
    traced: Settings,
    path: Seq<char>,
    read_size: nat,
    trace: bool,
)
    requires
        differ_in_trace(quiet, traced),
    ensures
        twins(
            slowed(quiet),
            service::list_directory(quiet, path, read_size, trace),
            service::list_directory(traced, path, read_size, trace),
        ),
{
    lemma_read_directory(quiet, traced, path, read_size, trace);
    lemma_try::<Seq<u8>, (Seq<Seq<char>>, nat), Os9Failure>(
        slowed(quiet),
        service::read_directory(quiet, path, read_size, trace),
        service::read_directory(traced, path, read_size, trace),
    );
}

/// Reading a file.
pub proof fn lemma_get_file(
    quiet: Settings,
    traced: Settings,
    path: Seq<char>,
    chunk_size: nat,
    trace: bool,
)
    requires
        differ_in_trace(quiet, traced),
    ensures
        twins(
            slowed(quiet),
            service::get_file(quiet, path, chunk_size, trace),
            service::get_file(traced, path, chunk_size, trace),
        ),
{
    if stub::valid_chunk_size(chunk_size) && !service::holds_nul(path) {
        let slow = slowed(quiet);
        let steps = service::source_steps();
        lemma_place_path(quiet, traced, path, steps);
        lemma_allocate_buffer(quiet, traced, chunk_size);
        lemma_then_close::<Seq<u8>>(quiet, traced, path, trace, "closing OS-9 source file"@);
        assert forall|
            buffer: u32,
            next: spec_fn(Result<Seq<u8>, Os9Failure>) -> Dialogue<Result<Seq<u8>, Os9Failure>>,
            traced_next: spec_fn(Result<Seq<u8>, Os9Failure>) -> Dialogue<
                Result<Seq<u8>, Os9Failure>,
            >,
        |
            (forall|work: Result<Seq<u8>, Os9Failure>|
                twins(slow, #[trigger] next(work), traced_next(work))) implies twins(
            slow,
            #[trigger] chain(service::read_open_file(quiet, path, chunk_size, trace, buffer), next),
            #[trigger] chain(
                service::read_open_file(traced, path, chunk_size, trace, buffer),
                traced_next,
            ),
        ) by {
            lemma_read_open_file(quiet, traced, path, chunk_size, trace, buffer);
            lemma_twins_chain(
                slow,
                service::read_open_file(quiet, path, chunk_size, trace, buffer),
                service::read_open_file(traced, path, chunk_size, trace, buffer),
                next,
                traced_next,
            );
        }
        lemma_step::<(usize, u32), Seq<u8>>(
            slowed(quiet),
            stub::allocate_buffer(quiet, chunk_size),
            stub::allocate_buffer(traced, chunk_size),
        );
        lemma_path_call::<Seq<u8>>(
            quiet,
            traced,
            trace,
            call_line("I$Open"@, path) + " (read)"@,
            REG_D0 | REG_A0,
            "setting registers for OS-9 file open"@,
            OS9_I_OPEN,
            "opening OS-9 source file"@,
        );
        lemma_try::<u32, Seq<u8>, Os9Failure>(
            slowed(quiet),
            service::place_path(quiet, path, steps),
            service::place_path(traced, path, steps),
        );
    }
}

/// Writing a file.
pub proof fn lemma_put_file(
    quiet: Settings,
    traced: Settings,
    data: Seq<u8>,
    path: Seq<char>,
    chunk_size: nat,
    trace: bool,
)
    requires
        differ_in_trace(quiet, traced),
    ensures
        twins(
            slowed(quiet),
            service::put_file(quiet, data, path, chunk_size, trace),
            service::put_file(traced, data, path, chunk_size, trace),
        ),
{
    if stub::valid_chunk_size(chunk_size) && !service::holds_nul(path) {
        let slow = slowed(quiet);
        let steps = service::destination_steps();
        lemma_place_path(quiet, traced, path, steps);
        lemma_allocate_buffer(quiet, traced, chunk_size);
        lemma_then_close::<()>(quiet, traced, path, trace, "closing OS-9 destination file"@);
        assert forall|
            buffer: u32,
            next: spec_fn(Result<(), Os9Failure>) -> Dialogue<Result<(), Os9Failure>>,
            traced_next: spec_fn(Result<(), Os9Failure>) -> Dialogue<Result<(), Os9Failure>>,
        |
            (forall|work: Result<(), Os9Failure>|
                twins(slow, #[trigger] next(work), traced_next(work))) implies twins(
            slow,
            #[trigger] chain(
                service::put_chunks(quiet, path, chunk_size, trace, buffer, data),
                next,
            ),
            #[trigger] chain(
                service::put_chunks(traced, path, chunk_size, trace, buffer, data),
                traced_next,
            ),
        ) by {
            lemma_put_chunks(quiet, traced, path, chunk_size, trace, buffer, data);
            lemma_twins_chain(
                slow,
                service::put_chunks(quiet, path, chunk_size, trace, buffer, data),
                service::put_chunks(traced, path, chunk_size, trace, buffer, data),
                next,
                traced_next,
            );
        }
        lemma_step::<(usize, u32), ()>(
            slowed(quiet),
            stub::allocate_buffer(quiet, chunk_size),
            stub::allocate_buffer(traced, chunk_size),
        );
        lemma_path_call::<()>(
            quiet,
            traced,
            trace,
            call_line("I$Create"@, path),
            REG_D0 | REG_D1 | REG_A0,
            "setting registers for OS-9 file create"@,
            OS9_I_CREATE,
            "creating OS-9 destination file"@,
        );
        lemma_try::<u32, (), Os9Failure>(
            slowed(quiet),
            service::place_path(quiet, path, steps),
            service::place_path(traced, path, steps),
        );
    }
}

/// Deleting a file.
pub proof fn lemma_delete_file(
    quiet: Settings,
    traced: Settings,
    path: Seq<char>,
    trace: bool,
)
    requires
        differ_in_trace(quiet, traced),
    ensures
        twins(
            slowed(quiet),
            service::delete_file(quiet, path, trace),
            service::delete_file(traced, path, trace),
        ),
{
    if path.len() > 0 && path[0] == '/' && !service::holds_nul(path) {
        let steps = service::deletion_steps();
        let selecting = "selecting OS-9 delete error register"@;
        let reading = "reading OS-9 delete error register"@;
        lemma_place_path(quiet, traced, path, steps);
        lemma_error_code(quiet, traced, selecting, reading);
        lemma_try::<u32, (), Os9Failure>(
            slowed(quiet),
            service::error_code(quiet, selecting, reading),
            service::error_code(traced, selecting, reading),
        );
        lemma_path_call::<()>(
            quiet,
            traced,
            trace,
            call_line("I$Delete"@, path),
            REG_D0 | REG_A0,
            "setting registers for OS-9 file delete"@,
            OS9_I_DELETE,
            "deleting OS-9 file"@,
        );
        lemma_try::<u32, (), Os9Failure>(
            slowed(quiet),
            service::place_path(quiet, path, steps),
            service::place_path(traced, path, steps),
        );
    }
}

/// The operations on files keep to the pacing, and a trace of the line changes
/// nothing about them but the lines that are shown.
pub proof fn law_file_operations_are_conducted_alike(
    quiet: Settings,
    traced: Settings,
    data: Seq<u8>,
    path: Seq<char>,
    size: nat,
    trace: bool,
)
    requires
        differ_in_trace(quiet, traced),
    ensures
        twins(
            slowed(quiet),
            service::read_directory(quiet, path, size, trace),
            service::read_directory(traced, path, size, trace),
        ),
        twins(
            slowed(quiet),
            service::list_directory(quiet, path, size, trace),
            service::list_directory(traced, path, size, trace),
        ),
        twins(
            slowed(quiet),
            service::get_file(quiet, path, size, trace),
            service::get_file(traced, path, size, trace),
        ),
        twins(
            slowed(quiet),
            service::put_file(quiet, data, path, size, trace),
            service::put_file(traced, data, path, size, trace),
        ),
        twins(
            slowed(quiet),
            service::delete_file(quiet, path, trace),
            service::delete_file(traced, path, trace),
        ),
{
    lemma_read_directory(quiet, traced, path, size, trace);
    lemma_list_directory(quiet, traced, path, size, trace);
    lemma_get_file(quiet, traced, path, size, trace);
    lemma_put_file(quiet, traced, data, path, size, trace);
    lemma_delete_file(quiet, traced, path, trace);
}

} // verus!
