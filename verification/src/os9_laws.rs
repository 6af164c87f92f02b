//! What the OS-9 operations refuse, and what their failures tell.

use vstd::prelude::*;
use vstd::utf8::encode_utf8;

use crate::dialogue::{after, again, follows, turn, Dialogue};
use crate::error::Failure;
use crate::frame::{value32, REG_A0, REG_D0, REG_D1};
use crate::laws::law_data_comes_from_the_player;
use crate::line::{Call, Event, Reply};
use crate::record::{lemma_first, lemma_one_call};
use crate::service;
use crate::service::{call_line, path_bytes, Os9Failure, PathSteps};
use crate::stub;
use crate::stub::Settings;

verus! {

/// A directory is read in parts of a multiple of 32 bytes, at most 65535 of them;
/// any other size is refused without a word to the player.
pub proof fn law_read_sizes_are_checked(
    settings: Settings,
    path: Seq<char>,
    size: nat,
    trace: bool,
)
    requires
        size == 0 || size > 65535 || size % 32 != 0,
    ensures
        service::read_directory(settings, path, size, trace) == Dialogue::Over(
            Err::<Seq<u8>, Os9Failure>(Os9Failure::InvalidReadSize),
        ),
        service::list_directory(settings, path, size, trace) == Dialogue::Over(
            Err::<(Seq<Seq<char>>, nat), Os9Failure>(Os9Failure::InvalidReadSize),
        ),
{
}

/// A file is transferred in chunks of at least one and at most 65535 bytes; any
/// other size is refused without a word to the player.
pub proof fn law_chunk_sizes_are_checked(
    settings: Settings,
    data: Seq<u8>,
    path: Seq<char>,
    size: nat,
    trace: bool,
)
    requires
        size == 0 || size > 65535,
    ensures
        service::get_file(settings, path, size, trace) == Dialogue::Over(
            Err::<Seq<u8>, Os9Failure>(Os9Failure::InvalidChunkSize),
        ),
        service::put_file(settings, data, path, size, trace) == Dialogue::Over(
            Err::<(), Os9Failure>(Os9Failure::InvalidChunkSize),
        ),
{
}

/// A path with a zero byte in it is refused without a word to the player, and the
/// failure says which path it was.
pub proof fn law_paths_are_checked(
    settings: Settings,
    data: Seq<u8>,
    path: Seq<char>,
    size: nat,
    trace: bool,
    index: int,
)
    requires
        0 <= index < encode_utf8(path).len(),
        encode_utf8(path)[index] == 0,
        1 <= size <= 65535,
    ensures
        size % 32 == 0 ==> service::read_directory(settings, path, size, trace)
            == Dialogue::Over(
            Err::<Seq<u8>, Os9Failure>(Os9Failure::NulInPath { role: "directory path"@ }),
        ),
        service::get_file(settings, path, size, trace) == Dialogue::Over(
            Err::<Seq<u8>, Os9Failure>(Os9Failure::NulInPath { role: "source path"@ }),
        ),
        service::put_file(settings, data, path, size, trace) == Dialogue::Over(
            Err::<(), Os9Failure>(Os9Failure::NulInPath { role: "destination path"@ }),
        ),
        path.len() > 0 && path[0] == '/' ==> service::delete_file(settings, path, trace)
            == Dialogue::Over(
            Err::<(), Os9Failure>(Os9Failure::NulInPath { role: "path to delete"@ }),
        ),
{
    assert(encode_utf8(path).contains(0u8));
}

/// Only a file with an absolute path is deleted; any other path is refused without
/// a word to the player.
pub proof fn law_relative_paths_are_not_deleted(
    settings: Settings,
    path: Seq<char>,
    trace: bool,
)
    requires
        path.len() == 0 || path[0] != '/',
    ensures
        service::delete_file(settings, path, trace) == Dialogue::Over(
            Err::<(), Os9Failure>(Os9Failure::RelativePath),
        ),
{
}

/// A path is brought to the player only into a buffer that has room for all of its
/// bytes and the zero byte behind them; a smaller one is refused. The address of
/// the buffer is the one that the player named.
pub proof fn law_small_buffers_are_refused(
    settings: Settings,
    path: Seq<char>,
    steps: PathSteps,
    log: Seq<Event>,
    outcome: Result<u32, Os9Failure>,
) -> (buffer: Option<(usize, u32)>)
    requires
        follows(log, service::place_path(settings, path, steps), outcome),
    ensures
        outcome matches Ok(address) ==> (buffer matches Some((room, place)) && address == place
            && room > encode_utf8(path).len()),
        outcome matches Err(Os9Failure::SmallBuffer { role }) ==> role == steps.role && (
        buffer matches Some((room, place)) && room <= encode_utf8(path).len()),
        buffer matches Some((room, place)) && room <= encode_utf8(path).len() ==> (
        outcome matches Err(Os9Failure::SmallBuffer { .. })),
        buffer matches Some(result) ==> exists|from: int, to: int|
            #![trigger log.subrange(from, to)]
            0 <= from <= to <= log.len() && follows(
                log.subrange(from, to),
                stub::allocate_buffer(settings, encode_utf8(path).len() + 1),
                Ok::<(usize, u32), Failure>(result),
            ),
{
    reveal(service::place_path);
    let whole = service::place_path(settings, path, steps);
    let bytes = path_bytes(path);
    let setting = stub::set_address(settings, 0);
    let (one, set, rest, next) = lemma_first(setting, whole, log, outcome);
    if set is Err {
        assert(rest.len() == 0);
        None
    } else {
        let allocating = stub::allocate_buffer(settings, bytes.len());
        let (two, buffer, later, next) = lemma_first(allocating, next, rest, outcome);
        let from = one.len() as int;
        let to = from + two.len();
        assert(log.subrange(from, to) =~= two);
        match buffer {
            Err(_) => {
                assert(later.len() == 0);
                None
            },
            Ok(result) => {
                assert(follows(
                    log.subrange(from, to),
                    stub::allocate_buffer(settings, encode_utf8(path).len() + 1),
                    Ok::<(usize, u32), Failure>(result),
                ));
                if result.0 < bytes.len() {
                    assert(later.len() == 0);
                } else {
                    let writing = stub::write(settings, bytes);
                    let (_, _, last, _) = lemma_first(writing, next, later, outcome);
                    assert(last.len() == 0);
                }
                Some(result)
            },
        }
    }
}

/// Closing keeps the failure of the work. Work that succeeded is lost if the player
/// could not be told to close, and the failure says so.
pub proof fn law_failures_of_closing_are_told<A>(
    settings: Settings,
    path: Seq<char>,
    trace: bool,
    work: Result<A, Os9Failure>,
    closing: Seq<char>,
    log: Seq<Event>,
    outcome: Result<A, Os9Failure>,
) -> (closed: Result<u32, Failure>)
    requires
        follows(log, service::close(settings, path, trace, work, closing), outcome),
    ensures
        work is Err ==> outcome == work,
        work is Ok && closed is Ok ==> outcome == work,
        work is Ok ==> (closed matches Err(error) ==> outcome == Err::<A, Os9Failure>(
            Os9Failure::Stub { step: closing, error },
        )),
        trace ==> log.len() > 0 && log[0].call == Call::Note(call_line("I$Close"@, path)),
        follows(
            log.skip(
                if trace {
                    1
                } else {
                    0
                },
            ),
            stub::os9_call(settings, 0x8f, 0),
            closed,
        ),
{
    reveal(service::close);
    let whole = service::close(settings, path, trace, work, closing);
    let line = call_line("I$Close"@, path);
    let (notes, _, rest, next) = lemma_first(
        service::os9_trace(trace, line),
        whole,
        log,
        outcome,
    );
    let calling = stub::os9_call(settings, 0x8f, 0);
    let (call, closed, last, _) = lemma_first(calling, next, rest, outcome);
    law_lines_are_shown_if_wanted(trace, line, notes);
    assert(last.len() == 0);
    assert(log.skip(notes.len() as int) =~= call);
    if trace {
        assert(log[0] == notes[0]);
    }
    closed
}

/// A call of the operating system has failed if the top bit of the mask that it
/// returned is set, whatever the other bits are.
pub proof fn law_failed_calls_are_recognised(mask: u32)
    ensures
        service::carry(mask) <==> mask >= 0x8000_0000,
{
    assert((mask & 0x8000_0000u32 != 0) == (mask >= 0x8000_0000u32)) by (bit_vector);
}

/// The error code of a failed call is the number that the player has in D1.
pub proof fn law_error_codes_come_from_the_player(
    settings: Settings,
    selecting: Seq<char>,
    reading: Seq<char>,
    log: Seq<Event>,
    code: u32,
) -> (bytes: Seq<u8>)
    requires
        follows(
            log,
            service::error_code(settings, selecting, reading),
            Ok::<u32, Os9Failure>(code),
        ),
    ensures
        code == bytes[0] * 0x100_0000 + bytes[1] * 0x1_0000 + bytes[2] * 0x100 + bytes[3],
        exists|middle: int|
            0 <= middle <= log.len() && #[trigger] follows(
                log.take(middle),
                stub::select_registers(settings, 2),
                Ok::<(), Failure>(()),
            ) && follows(
                log.skip(middle),
                stub::read(settings, 4),
                Ok::<Seq<u8>, Failure>(bytes),
            ),
{
    reveal(service::error_code);
    let outcome = Ok::<u32, Os9Failure>(code);
    let whole = service::error_code(settings, selecting, reading);
    let (one, selected, rest, next) = lemma_first(
        stub::select_registers(settings, 2),
        whole,
        log,
        outcome,
    );
    assert(selected is Ok) by {
        if selected is Err {
            assert(rest.len() == 0);
        }
    }
    let (two, read, last, _) = lemma_first(stub::read(settings, 4), next, rest, outcome);
    assert(last.len() == 0);
    let bytes = read->Ok_0;
    assert(log.take(one.len() as int) =~= one);
    assert(log.skip(one.len() as int) =~= two);
    assert(selected == Ok::<(), Failure>(()));
    assert(follows(
        log.take(one.len() as int),
        stub::select_registers(settings, 2),
        Ok::<(), Failure>(()),
    ));
    bytes
}

/// Reading the error code of a write that the player refused.
pub open spec fn write_error_code(settings: Settings) -> Dialogue<Result<u32, Os9Failure>> {
    service::error_code(
        settings,
        "selecting OS-9 write error register"@,
        "reading OS-9 write error register"@,
    )
}

/// A chunk that the player refuses fails with the path and the error code; one that
/// it takes does not.
pub proof fn law_refused_chunks_are_told(
    settings: Settings,
    path: Seq<char>,
    trace: bool,
    buffer: u32,
    chunk: Seq<u8>,
    log: Seq<Event>,
    outcome: Result<(), Os9Failure>,
) -> (answer: (bool, int))
    requires
        follows(log, service::put_chunk(settings, path, trace, buffer, chunk), outcome),
    ensures
        outcome is Ok ==> !answer.0,
        outcome matches Err(failure) ==> failure is Stub || failure is Write,
        answer.0 ==> outcome is Err,
        outcome matches Err(Os9Failure::Write { path: told, code }) ==> {
            &&& answer.0
            &&& told == path
            &&& 0 <= answer.1 <= log.len()
            &&& follows(
                log.skip(answer.1),
                write_error_code(settings),
                Ok::<u32, Os9Failure>(code),
            )
        },
        outcome is Ok || answer.0 ==> exists|from: int, to: int, mask: u32|
            0 <= from <= to <= log.len() && #[trigger] follows(
                log.subrange(from, to),
                stub::os9_call(settings, 0x8a, 0),
                Ok::<u32, Failure>(mask),
            ) && answer.0 == (mask >= 0x8000_0000),
{
    reveal(service::put_chunk);
    reveal(service::plain_call);
    reveal(service::error_code);
    let whole = service::put_chunk(settings, path, trace, buffer, chunk);
    let values = seq![chunk.len() as u32, buffer];
    let mask = REG_D1 | REG_A0;
    let line = service::sized_call_line("I$Write"@, path, chunk.len(), " bytes)"@);
    let (one, set, rest, next) = lemma_first(
        stub::set_registers(settings, mask, values),
        whole,
        log,
        outcome,
    );
    if set is Err {
        assert(rest.len() == 0);
        (false, 0)
    } else {
        let (two, addressed, rest, next) = lemma_first(
            stub::set_address(settings, buffer),
            next,
            rest,
            outcome,
        );
        if addressed is Err {
            assert(rest.len() == 0);
            (false, 0)
        } else {
            let (three, copied, rest, next) = lemma_first(
                stub::write(settings, chunk),
                next,
                rest,
                outcome,
            );
            if copied is Err {
                assert(rest.len() == 0);
                (false, 0)
            } else {
                let calling = "writing OS-9 destination file"@;
                let call = service::plain_call(
                    settings,
                    trace,
                    line,
                    service::OS9_I_WRITE,
                    calling,
                );
                let (four, failed, rest, next) = lemma_first(call, next, rest, outcome);
                let (notes, _, tail, then) = lemma_first(
                    service::os9_trace(trace, line),
                    call,
                    four,
                    failed,
                );
                let asking = stub::os9_call(settings, 0x8a, 0);
                let (said, result, end, _) = lemma_first(asking, then, tail, failed);
                assert(end.len() == 0);
                let from = one.len() + two.len() + three.len() + notes.len();
                let to = from + said.len();
                assert(log.subrange(from as int, to as int) =~= said);
                match failed {
                    Err(_) => {
                        assert(rest.len() == 0);
                        (false, 0)
                    },
                    Ok(refused) => {
                        let mask = result->Ok_0;
                        law_failed_calls_are_recognised(mask);
                        assert(follows(
                            log.subrange(from as int, to as int),
                            asking,
                            Ok::<u32, Failure>(mask),
                        ));
                        if refused {
                            let reading = write_error_code(settings);
                            let (code_log, code, last, _) = lemma_first(
                                reading,
                                next,
                                rest,
                                outcome,
                            );
                            assert(last.len() == 0);
                            let front = one.len() + two.len() + three.len() + four.len();
                            assert(log.skip(front as int) =~= code_log);
                            if code is Err {
                                lemma_code_failure(settings, code_log, code->Err_0);
                            }
                            (true, front as int)
                        } else {
                            assert(rest.len() == 0);
                            (false, 0)
                        }
                    },
                }
            }
        }
    }
}

/// An error code that cannot be read is a failed step.
proof fn lemma_code_failure(settings: Settings, log: Seq<Event>, failure: Os9Failure)
    requires
        follows(
            log,
            service::error_code(
                settings,
                "selecting OS-9 write error register"@,
                "reading OS-9 write error register"@,
            ),
            Err::<u32, Os9Failure>(failure),
        ),
    ensures
        failure is Stub,
{
    reveal(service::error_code);
    let outcome = Err::<u32, Os9Failure>(failure);
    let whole = service::error_code(
        settings,
        "selecting OS-9 write error register"@,
        "reading OS-9 write error register"@,
    );
    let (_, selected, rest, next) = lemma_first(
        stub::select_registers(settings, REG_D1),
        whole,
        log,
        outcome,
    );
    if selected is Err {
        assert(rest.len() == 0);
    } else {
        let (_, _, last, _) = lemma_first(stub::read(settings, 4), next, rest, outcome);
        assert(last.len() == 0);
    }
}

/// What is fetched after a read is as much as the player says in the low half of D1,
/// whatever is in the other half. If it says nothing, or more than was asked for,
/// nothing is fetched.
pub proof fn law_fetches_stay_in_the_buffer(
    settings: Settings,
    buffer: u32,
    limit: nat,
    selecting: Seq<char>,
    reading: Seq<char>,
    addressing: Seq<char>,
    fetching: Seq<char>,
    log: Seq<Event>,
    bytes: Seq<u8>,
) -> (registers: Seq<u8>)
    requires
        follows(
            log,
            service::fetch(settings, buffer, limit, selecting, reading, addressing, fetching),
            Ok::<Seq<u8>, Os9Failure>(bytes),
        ),
    ensures
        registers.len() == 8,
        ({
            let valid = registers[6] * 0x100 + registers[7];
            &&& 1 <= valid <= limit ==> bytes.len() == valid
            &&& valid == 0 || valid > limit ==> bytes.len() == 0
        }),
        exists|from: int, to: int|
            0 <= from <= to <= log.len() && #[trigger] follows(
                log.subrange(from, to),
                stub::read(settings, 8),
                Ok::<Seq<u8>, Failure>(registers),
            ),
{
    reveal(service::fetch);
    let outcome = Ok::<Seq<u8>, Os9Failure>(bytes);
    let whole = service::fetch(
        settings,
        buffer,
        limit,
        selecting,
        reading,
        addressing,
        fetching,
    );
    let (one, selected, rest, next) = lemma_first(
        stub::select_registers(settings, REG_D0 | REG_D1),
        whole,
        log,
        outcome,
    );
    assert(selected is Ok) by {
        if selected is Err {
            assert(rest.len() == 0);
        }
    }
    let (two, read, rest, next) = lemma_first(stub::read(settings, 8), next, rest, outcome);
    assert(read is Ok) by {
        if read is Err {
            assert(rest.len() == 0);
        }
    }
    law_data_comes_from_the_player(settings, 8, two, read);
    let registers = read->Ok_0;
    let (from, to) = (one.len() as int, (one.len() + two.len()) as int);
    assert(log.subrange(from, to) =~= two);
    assert(follows(
        log.subrange(from, to),
        stub::read(settings, 8),
        Ok::<Seq<u8>, Failure>(registers),
    ));
    let valid = (value32(registers.skip(4)) % 0x1_0000) as nat;
    assert(valid == registers[6] * 0x100 + registers[7]);
    if valid == 0 || valid > limit {
        assert(rest.len() == 0);
    } else {
        let (_, set, rest, next) = lemma_first(
            stub::set_address(settings, buffer),
            next,
            rest,
            outcome,
        );
        assert(set is Ok) by {
            if set is Err {
                assert(rest.len() == 0);
            }
        }
        let (last, fetched, end, _) = lemma_first(
            stub::read(settings, valid),
            next,
            rest,
            outcome,
        );
        assert(end.len() == 0);
        law_data_comes_from_the_player(settings, valid, last, fetched);
    }
    registers
}

/// A line is shown if and only if that is wanted.
pub proof fn law_lines_are_shown_if_wanted(trace: bool, line: Seq<char>, log: Seq<Event>)
    requires
        follows(log, service::os9_trace(trace, line), ()),
    ensures
        trace ==> log == seq![Event { call: Call::Note(line), reply: Reply::Finished }],
        !trace ==> log.len() == 0,
{
    if trace {
        let whole = service::os9_trace(trace, line);
        let (first, reply, rest, _) = lemma_first(turn(Call::Note(line)), whole, log, ());
        assert(rest.len() == 0);
        assert(first =~= log);
        lemma_one_call(first, Call::Note(line), reply);
        assert(!again(log[0]));
        assert(after(turn(Call::Note(line)), log) == after(
            Dialogue::Over(log[0].reply),
            log.skip(1),
        ));
        assert(log.skip(1).len() == 0);
        assert(log =~= seq![Event { call: Call::Note(line), reply: Reply::Finished }]);
    }
}

/// A call of the operating system is announced by its line, right before it, if that
/// is wanted; and nothing else is done for it.
pub proof fn law_calls_are_announced(
    settings: Settings,
    trace: bool,
    line: Seq<char>,
    call: u16,
    calling: Seq<char>,
    log: Seq<Event>,
    outcome: Result<bool, Os9Failure>,
) -> (answer: Result<u32, Failure>)
    requires
        follows(log, service::plain_call(settings, trace, line, call, calling), outcome),
    ensures
        trace ==> log.len() > 0 && log[0].call == Call::Note(line) && follows(
            log.skip(1),
            stub::os9_call(settings, call, 0),
            answer,
        ),
        !trace ==> follows(log, stub::os9_call(settings, call, 0), answer),
        answer matches Ok(mask) ==> outcome == Ok::<bool, Os9Failure>(mask >= 0x8000_0000),
        answer matches Err(error) ==> outcome == Err::<bool, Os9Failure>(
            Os9Failure::Stub { step: calling, error },
        ),
{
    reveal(service::plain_call);
    let whole = service::plain_call(settings, trace, line, call, calling);
    let showing = service::os9_trace(trace, line);
    let (shown, _, rest, next) = lemma_first(showing, whole, log, outcome);
    law_lines_are_shown_if_wanted(trace, line, shown);
    let asking = stub::os9_call(settings, call, 0);
    let (said, answer, last, _) = lemma_first(asking, next, rest, outcome);
    assert(last.len() == 0);
    assert(said =~= rest);
    assert(log.skip(shown.len() as int) =~= rest);
    if let Ok(mask) = answer {
        law_failed_calls_are_recognised(mask);
    }
    if !trace {
        assert(log.skip(0) =~= log);
    } else {
        assert(log[0] == shown[0]);
    }
    answer
}

/// A file is read until the player says that there is no more of it: the last read
/// fails, or brings nothing that could be fetched.
pub proof fn law_files_are_read_to_their_end(
    settings: Settings,
    path: Seq<char>,
    chunk_size: nat,
    trace: bool,
    buffer: u32,
    data: Seq<u8>,
    log: Seq<Event>,
    all: Seq<u8>,
) -> (cut: (int, int))
    requires
        follows(
            log,
            service::file_data(settings, path, chunk_size, trace, buffer, data),
            Ok::<Seq<u8>, Os9Failure>(all),
        ),
    ensures
        0 <= cut.0 <= cut.1 <= log.len(),
        ({
            let line = service::sized_call_line("I$Read"@, path, chunk_size, " bytes requested)"@);
            let reading = service::plain_call(
                settings,
                trace,
                line,
                0x89,
                "reading OS-9 source file"@,
            );
            let last = log.subrange(cut.0, cut.1);
            ||| cut.1 == log.len() && follows(last, reading, Ok::<bool, Os9Failure>(true))
            ||| follows(last, reading, Ok::<bool, Os9Failure>(false)) && follows(
                log.skip(cut.1),
                file_fetch(settings, buffer, chunk_size),
                Ok::<Seq<u8>, Os9Failure>(Seq::empty()),
            )
        }),
        data.len() <= all.len(),
        all.take(data.len() as int) == data,
    decreases usize::MAX - data.len(),
{
    let outcome = Ok::<Seq<u8>, Os9Failure>(all);
    let whole = service::file_data(settings, path, chunk_size, trace, buffer, data);
    let line = service::sized_call_line("I$Read"@, path, chunk_size, " bytes requested)"@);
    let calling = "reading OS-9 source file"@;
    let reading = service::plain_call(settings, trace, line, service::OS9_I_READ, calling);
    let (one, ended, rest, next) = lemma_first(reading, whole, log, outcome);
    assert(ended is Ok) by {
        if ended is Err {
            assert(rest.len() == 0);
        }
    }
    let here = (0int, one.len() as int);
    assert(log.subrange(here.0, here.1) =~= one);
    if ended->Ok_0 {
        assert(rest.len() == 0);
        assert(all.take(data.len() as int) =~= data);
        here
    } else {
        let fetching = file_fetch(settings, buffer, chunk_size);
        let (two, fetched, later, then) = lemma_first(fetching, next, rest, outcome);
        assert(fetched is Ok) by {
            if fetched is Err {
                assert(later.len() == 0);
            }
        }
        let bytes = fetched->Ok_0;
        if bytes.len() == 0 {
            assert(later.len() == 0);
            assert(log.skip(here.1) =~= two);
            assert(bytes =~= Seq::empty());
            assert(all.take(data.len() as int) =~= data);
            here
        } else {
            assert(data.len() + bytes.len() <= usize::MAX) by {
                if data.len() + bytes.len() > usize::MAX {
                    assert(later.len() == 0);
                }
            }
            let setting = stub::set_registers(settings, REG_D1, seq![chunk_size as u32]);
            let (three, set, last, _) = lemma_first(setting, then, later, outcome);
            assert(set is Ok) by {
                if set is Err {
                    assert(last.len() == 0);
                }
            }
            let cut = law_files_are_read_to_their_end(
                settings,
                path,
                chunk_size,
                trace,
                buffer,
                data + bytes,
                last,
                all,
            );
            let front = (one.len() + two.len() + three.len()) as int;
            assert(log.subrange(front + cut.0, front + cut.1) =~= last.subrange(cut.0, cut.1));
            assert(log.skip(front + cut.1) =~= last.skip(cut.1));
            assert(all.take(data.len() as int) =~= all.take(
                (data + bytes).len() as int,
            ).take(data.len() as int));
            assert((data + bytes).take(data.len() as int) =~= data);
            (front + cut.0, front + cut.1)
        }
    }
}

/// Fetching what a read of a file left in the buffer.
pub open spec fn file_fetch(settings: Settings, buffer: u32, chunk_size: nat) -> Dialogue<
    Result<Seq<u8>, Os9Failure>,
> {
    service::fetch(
        settings,
        buffer,
        chunk_size,
        "selecting OS-9 file result registers"@,
        "reading OS-9 file result registers"@,
        "selecting OS-9 file data buffer"@,
        "reading OS-9 file data from Stub"@,
    )
}

/// Fetching what a read of a directory left in the buffer.
pub open spec fn directory_fetch(settings: Settings, buffer: u32, read_size: nat) -> Dialogue<
    Result<Seq<u8>, Os9Failure>,
> {
    service::fetch(
        settings,
        buffer,
        read_size,
        "selecting OS-9 directory result registers"@,
        "reading OS-9 directory result registers"@,
        "selecting OS-9 directory data buffer"@,
        "reading OS-9 directory data from Stub"@,
    )
}

/// A directory is read until the player says that there is no more of it: the last
/// read fails, or brings nothing that could be fetched.
pub proof fn law_directories_are_read_to_their_end(
    settings: Settings,
    path: Seq<char>,
    read_size: nat,
    trace: bool,
    buffer: u32,
    data: Seq<u8>,
    log: Seq<Event>,
    all: Seq<u8>,
) -> (cut: (int, int))
    requires
        follows(
            log,
            service::directory_data(settings, path, read_size, trace, buffer, data),
            Ok::<Seq<u8>, Os9Failure>(all),
        ),
    ensures
        0 <= cut.0 <= cut.1 <= log.len(),
        ({
            let line = service::sized_call_line("I$Read"@, path, read_size, " bytes requested)"@);
            let reading = service::call_with(
                settings,
                trace,
                line,
                0x2,
                seq![read_size as u32],
                "setting registers for OS-9 directory read"@,
                0x89,
                "reading OS-9 directory"@,
            );
            let last = log.subrange(cut.0, cut.1);
            ||| cut.1 == log.len() && follows(last, reading, Ok::<bool, Os9Failure>(true))
            ||| follows(last, reading, Ok::<bool, Os9Failure>(false)) && follows(
                log.skip(cut.1),
                directory_fetch(settings, buffer, read_size),
                Ok::<Seq<u8>, Os9Failure>(Seq::empty()),
            )
        }),
        data.len() <= all.len(),
        all.take(data.len() as int) == data,
    decreases usize::MAX - data.len(),
{
    let outcome = Ok::<Seq<u8>, Os9Failure>(all);
    let whole = service::directory_data(settings, path, read_size, trace, buffer, data);
    let line = service::sized_call_line("I$Read"@, path, read_size, " bytes requested)"@);
    let reading = service::call_with(
        settings,
        trace,
        line,
        REG_D1,
        seq![read_size as u32],
        "setting registers for OS-9 directory read"@,
        service::OS9_I_READ,
        "reading OS-9 directory"@,
    );
    let (one, ended, rest, next) = lemma_first(reading, whole, log, outcome);
    assert(ended is Ok) by {
        if ended is Err {
            assert(rest.len() == 0);
        }
    }
    let here = (0int, one.len() as int);
    assert(log.subrange(here.0, here.1) =~= one);
    if ended->Ok_0 {
        assert(rest.len() == 0);
        assert(all.take(data.len() as int) =~= data);
        here
    } else {
        let fetching = directory_fetch(settings, buffer, read_size);
        let (two, fetched, last, _) = lemma_first(fetching, next, rest, outcome);
        assert(fetched is Ok) by {
            if fetched is Err {
                assert(last.len() == 0);
            }
        }
        let bytes = fetched->Ok_0;
        if bytes.len() == 0 {
            assert(last.len() == 0);
            assert(log.skip(here.1) =~= two);
            assert(bytes =~= Seq::empty());
            assert(all.take(data.len() as int) =~= data);
            here
        } else {
            assert(data.len() + bytes.len() <= usize::MAX) by {
                if data.len() + bytes.len() > usize::MAX {
                    assert(last.len() == 0);
                }
            }
            let cut = law_directories_are_read_to_their_end(
                settings,
                path,
                read_size,
                trace,
                buffer,
                data + bytes,
                last,
                all,
            );
            let front = (one.len() + two.len()) as int;
            assert(log.subrange(front + cut.0, front + cut.1) =~= last.subrange(cut.0, cut.1));
            assert(log.skip(front + cut.1) =~= last.skip(cut.1));
            assert(all.take(data.len() as int) =~= all.take(
                (data + bytes).len() as int,
            ).take(data.len() as int));
            assert((data + bytes).take(data.len() as int) =~= data);
            (front + cut.0, front + cut.1)
        }
    }
}

/// A directory whose status the player does not tell is not read: the failure names
/// it, and the path is not closed. If it tells the status, that is not the failure.
pub proof fn law_refused_status_is_told(
    settings: Settings,
    path: Seq<char>,
    read_size: nat,
    trace: bool,
    buffer: u32,
    log: Seq<Event>,
    outcome: Result<Seq<u8>, Os9Failure>,
) -> (asked: (int, Result<bool, Os9Failure>))
    requires
        follows(
            log,
            service::read_open_directory(settings, path, read_size, trace, buffer),
            outcome,
        ),
    ensures
        0 <= asked.0 <= log.len(),
        follows(
            log.take(asked.0),
            service::call_with(
                settings,
                trace,
                call_line("I$GetStt"@, path),
                0x102,
                seq![0u32, buffer],
                "setting registers for OS-9 directory status"@,
                0x8d,
                "querying OS-9 directory status"@,
            ),
            asked.1,
        ),
        asked.1 == Ok::<bool, Os9Failure>(true) ==> {
            &&& outcome == Err::<Seq<u8>, Os9Failure>(Os9Failure::DirectoryStatus { path })
            &&& asked.0 == log.len()
        },
        asked.1 matches Err(failure) ==> outcome == Err::<Seq<u8>, Os9Failure>(failure),
{
    reveal(service::read_open_directory);
    assert(2u32 | 0x100u32 == 0x102u32) by (bit_vector);
    let whole = service::read_open_directory(settings, path, read_size, trace, buffer);
    let asking = service::call_with(
        settings,
        trace,
        call_line("I$GetStt"@, path),
        REG_D1 | REG_A0,
        seq![0u32, buffer],
        "setting registers for OS-9 directory status"@,
        service::OS9_I_GETSTT,
        "querying OS-9 directory status"@,
    );
    let (first, refused, rest, _) = lemma_first(asking, whole, log, outcome);
    if refused != Ok::<bool, Os9Failure>(false) {
        assert(rest.len() == 0);
    }
    assert(log.take(first.len() as int) =~= first);
    (first.len() as int, refused)
}

} // verus!
