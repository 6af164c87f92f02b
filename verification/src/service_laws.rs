//! What holds of the file service as a whole.

use vstd::prelude::*;

use crate::dialogue::follows;
use crate::frame::{REG_A0, REG_D0, REG_D1};
use crate::line::Event;
use crate::record::lemma_first;
use crate::service;
use crate::service::{
    call_line, Os9Failure, PathSteps, OS9_DIRECTORY_READ, OS9_FILE_READ, OS9_FILE_READ_WRITE,
    OS9_I_CREATE, OS9_I_GETSTT, OS9_I_OPEN, OS9_OWNER_READ_WRITE,
};
use crate::stub;
use crate::stub::Settings;

verus! {

/// A record ends with the path being closed, whatever became of the work on it.
/// A failure of the work is the failure of the whole.
pub open spec fn closes<A>(
    settings: Settings,
    path: Seq<char>,
    trace: bool,
    closing: Seq<char>,
    log: Seq<Event>,
    outcome: Result<A, Os9Failure>,
) -> bool {
    exists|cut: int, work: Result<A, Os9Failure>|
        #![trigger follows(
            log.skip(cut),
            service::close(settings, path, trace, work, closing),
            outcome,
        )]
        {
            &&& 0 <= cut <= log.len()
            &&& follows(
                log.skip(cut),
                service::close(settings, path, trace, work, closing),
                outcome,
            )
            &&& work is Err ==> outcome == work
            &&& outcome is Ok ==> work == outcome
        }
}

/// The failure is one of the named steps.
pub open spec fn fails_at(failure: Os9Failure, names: Seq<Seq<char>>) -> bool {
    failure matches Os9Failure::Stub { step, .. } && names.contains(step)
}

/// The failure comes before the path has reached the player.
pub open spec fn misses_path(failure: Os9Failure, steps: PathSteps) -> bool {
    ||| failure is NulInPath
    ||| failure is SmallBuffer
    ||| fails_at(
        failure,
        seq!["initializing full Stub address"@, steps.allocating, steps.writing],
    )
}

/// The failure comes before a directory is read: it is not open, or its state
/// cannot be prepared. It is not closed then.
pub open spec fn before_directory(failure: Os9Failure) -> bool {
    ||| failure is InvalidReadSize
    ||| failure is OpenDirectory
    ||| failure is DirectoryStatus
    ||| misses_path(failure, service::directory_steps())
    ||| fails_at(
        failure,
        seq![
            "setting registers for OS-9 directory open"@,
            "opening OS-9 directory"@,
            "allocating OS-9 directory data buffer"@,
            "setting registers for OS-9 directory status"@,
            "querying OS-9 directory status"@,
            "reading OS-9 directory status byte"@,
        ],
    )
}

/// The failure comes before a file is read: it is not open, or there is no
/// buffer for its data. It is not closed then.
pub open spec fn before_file(failure: Os9Failure) -> bool {
    ||| failure is InvalidChunkSize
    ||| failure is OpenFile
    ||| misses_path(failure, service::source_steps())
    ||| fails_at(
        failure,
        seq![
            "setting registers for OS-9 file open"@,
            "opening OS-9 source file"@,
            "allocating OS-9 file data buffer"@,
        ],
    )
}

/// The failure comes before a file is written: it is not created, or there is
/// no buffer for its data. It is not closed then.
pub open spec fn before_new_file(failure: Os9Failure) -> bool {
    ||| failure is InvalidChunkSize
    ||| failure is Create
    ||| misses_path(failure, service::destination_steps())
    ||| fails_at(
        failure,
        seq![
            "setting registers for OS-9 file create"@,
            "creating OS-9 destination file"@,
            "allocating OS-9 file write buffer"@,
        ],
    )
}

/// A list of names holds each of them.
proof fn lemma_names(failure: Os9Failure, names: Seq<Seq<char>>, index: int)
    requires
        0 <= index < names.len(),
        failure matches Os9Failure::Stub { step, .. } && step == names[index],
    ensures
        fails_at(failure, names),
{
}

/// How bringing a path to the player fails.
proof fn lemma_place_path(
    settings: Settings,
    path: Seq<char>,
    steps: PathSteps,
    log: Seq<Event>,
    outcome: Result<u32, Os9Failure>,
)
    requires
        follows(log, service::place_path(settings, path, steps), outcome),
    ensures
        outcome matches Err(failure) ==> misses_path(failure, steps),
{
    reveal(service::place_path);
    let names = seq!["initializing full Stub address"@, steps.allocating, steps.writing];
    let whole = service::place_path(settings, path, steps);
    let bytes = service::path_bytes(path);
    let (_, set, rest, next) = lemma_first(stub::set_address(settings, 0), whole, log, outcome);
    if set is Err {
        assert(rest.len() == 0);
        lemma_names(outcome->Err_0, names, 0);
    } else {
        let allocating = stub::allocate_buffer(settings, bytes.len());
        let (_, buffer, rest, next) = lemma_first(allocating, next, rest, outcome);
        if buffer is Err {
            assert(rest.len() == 0);
            lemma_names(outcome->Err_0, names, 1);
        } else if buffer->Ok_0.0 < bytes.len() {
            assert(rest.len() == 0);
        } else {
            let writing = stub::write(settings, bytes);
            let (_, written, rest, _) = lemma_first(writing, next, rest, outcome);
            assert(rest.len() == 0);
            if written is Err {
                lemma_names(outcome->Err_0, names, 2);
            }
        }
    }
}

/// How a call with registers fails.
proof fn lemma_call_with(
    settings: Settings,
    trace: bool,
    line: Seq<char>,
    mask: u32,
    values: Seq<u32>,
    setting: Seq<char>,
    call: u16,
    calling: Seq<char>,
    log: Seq<Event>,
    outcome: Result<bool, Os9Failure>,
)
    requires
        follows(
            log,
            service::call_with(settings, trace, line, mask, values, setting, call, calling),
            outcome,
        ),
    ensures
        outcome matches Err(failure) ==> (failure matches Os9Failure::Stub { step, .. } && (step
            == setting || step == calling)),
{
    reveal(service::call_with);
    reveal(service::plain_call);
    let whole = service::call_with(settings, trace, line, mask, values, setting, call, calling);
    let setting_registers = stub::set_registers(settings, mask, values);
    let (_, set, rest, next) = lemma_first(setting_registers, whole, log, outcome);
    if set is Err {
        assert(rest.len() == 0);
    } else {
        let (_, _, rest, next) = lemma_first(
            service::os9_trace(trace, line),
            next,
            rest,
            outcome,
        );
        let (_, _, rest, _) = lemma_first(
            stub::os9_call(settings, call, 0),
            next,
            rest,
            outcome,
        );
        assert(rest.len() == 0);
    }
}

/// What closing makes of the outcome of the work.
proof fn lemma_close<A>(
    settings: Settings,
    path: Seq<char>,
    trace: bool,
    work: Result<A, Os9Failure>,
    closing: Seq<char>,
    log: Seq<Event>,
    outcome: Result<A, Os9Failure>,
)
    requires
        follows(log, service::close(settings, path, trace, work, closing), outcome),
    ensures
        work is Err ==> outcome == work,
        outcome is Ok ==> work == outcome,
{
    reveal(service::close);
    let whole = service::close(settings, path, trace, work, closing);
    let tracing = service::os9_trace(trace, call_line("I$Close"@, path));
    let (_, _, rest, next) = lemma_first(tracing, whole, log, outcome);
    let calling = stub::os9_call(settings, service::OS9_I_CLOSE, 0);
    let (_, _, rest, _) = lemma_first(calling, next, rest, outcome);
    assert(rest.len() == 0);
}

/// A record whose end is one of closing.
proof fn lemma_closes<A>(
    settings: Settings,
    path: Seq<char>,
    trace: bool,
    work: Result<A, Os9Failure>,
    closing: Seq<char>,
    front: Seq<Event>,
    rest: Seq<Event>,
    outcome: Result<A, Os9Failure>,
)
    requires
        follows(rest, service::close(settings, path, trace, work, closing), outcome),
    ensures
        closes(settings, path, trace, closing, front + rest, outcome),
{
    lemma_close(settings, path, trace, work, closing, rest, outcome);
    let log = front + rest;
    let cut = front.len() as int;
    assert(log.skip(cut) =~= rest);
    assert(follows(
        log.skip(cut),
        service::close(settings, path, trace, work, closing),
        outcome,
    ));
}

/// A directory that is read is closed again, also when reading it fails.
pub proof fn law_directories_are_closed(
    settings: Settings,
    path: Seq<char>,
    read_size: nat,
    trace: bool,
    log: Seq<Event>,
    outcome: Result<Seq<u8>, Os9Failure>,
)
    requires
        follows(log, service::read_directory(settings, path, read_size, trace), outcome),
    ensures
        closes(settings, path, trace, "closing OS-9 directory"@, log, outcome) || (outcome matches
            Err(failure) && before_directory(failure)),
{
    let whole = service::read_directory(settings, path, read_size, trace);
    let valid = stub::valid_chunk_size(read_size) && read_size % 32 == 0;
    if valid && !service::holds_nul(path) {
        let steps = service::directory_steps();
        let names = seq![
            "setting registers for OS-9 directory open"@,
            "opening OS-9 directory"@,
            "allocating OS-9 directory data buffer"@,
            "setting registers for OS-9 directory status"@,
            "querying OS-9 directory status"@,
            "reading OS-9 directory status byte"@,
        ];
        let placing = service::place_path(settings, path, steps);
        let (one, placed, rest, next) = lemma_first(placing, whole, log, outcome);
        lemma_place_path(settings, path, steps, one, placed);
        if placed is Err {
            assert(rest.len() == 0);
        } else {
            let line = call_line("I$Open"@, path) + " (directory)"@;
            let values = seq![OS9_DIRECTORY_READ, placed->Ok_0];
            let opening = service::call_with(
                settings,
                trace,
                line,
                REG_D0 | REG_A0,
                values,
                names[0],
                OS9_I_OPEN,
                names[1],
            );
            let (two, refused, rest, next) = lemma_first(opening, next, rest, outcome);
            lemma_call_with(
                settings,
                trace,
                line,
                REG_D0 | REG_A0,
                values,
                names[0],
                OS9_I_OPEN,
                names[1],
                two,
                refused,
            );
            if refused is Err {
                assert(rest.len() == 0);
                let step = refused->Err_0->Stub_step;
                lemma_names(outcome->Err_0, names, if step == names[0] { 0 } else { 1 });
            } else if refused->Ok_0 {
                assert(rest.len() == 0);
            } else {
                let allocating = stub::allocate_buffer(settings, read_size);
                let (three, buffer, rest, _) = lemma_first(allocating, next, rest, outcome);
                if buffer is Err {
                    assert(rest.len() == 0);
                    lemma_names(outcome->Err_0, names, 2);
                } else {
                    lemma_open_directory(
                        settings,
                        path,
                        read_size,
                        trace,
                        buffer->Ok_0.1,
                        one + two + three,
                        rest,
                        outcome,
                    );
                    assert(one + two + three + rest =~= log);
                }
            }
        }
    }
}

/// An open directory that is read is closed.
proof fn lemma_open_directory(
    settings: Settings,
    path: Seq<char>,
    read_size: nat,
    trace: bool,
    buffer: u32,
    front: Seq<Event>,
    log: Seq<Event>,
    outcome: Result<Seq<u8>, Os9Failure>,
)
    requires
        follows(
            log,
            service::read_open_directory(settings, path, read_size, trace, buffer),
            outcome,
        ),
    ensures
        closes(settings, path, trace, "closing OS-9 directory"@, front + log, outcome) || (
        outcome matches Err(failure) && before_directory(failure)),
{
    reveal(service::read_open_directory);
    let names = seq![
        "setting registers for OS-9 directory open"@,
        "opening OS-9 directory"@,
        "allocating OS-9 directory data buffer"@,
        "setting registers for OS-9 directory status"@,
        "querying OS-9 directory status"@,
        "reading OS-9 directory status byte"@,
    ];
    let whole = service::read_open_directory(settings, path, read_size, trace, buffer);
    let line = call_line("I$GetStt"@, path);
    let values = seq![0, buffer];
    let asking = service::call_with(
        settings,
        trace,
        line,
        REG_D1 | REG_A0,
        values,
        names[3],
        OS9_I_GETSTT,
        names[4],
    );
    let (one, refused, rest, next) = lemma_first(asking, whole, log, outcome);
    lemma_call_with(
        settings,
        trace,
        line,
        REG_D1 | REG_A0,
        values,
        names[3],
        OS9_I_GETSTT,
        names[4],
        one,
        refused,
    );
    if refused is Err {
        assert(rest.len() == 0);
        let step = refused->Err_0->Stub_step;
        lemma_names(outcome->Err_0, names, if step == names[3] { 3 } else { 4 });
    } else if refused->Ok_0 {
        assert(rest.len() == 0);
    } else {
        let (two, status, rest, next) = lemma_first(
            stub::read(settings, 1),
            next,
            rest,
            outcome,
        );
        if status is Err {
            assert(rest.len() == 0);
            lemma_names(outcome->Err_0, names, 5);
        } else {
            let reading = service::directory_data(
                settings,
                path,
                read_size,
                trace,
                buffer,
                seq![],
            );
            let (three, work, rest, _) = lemma_first(reading, next, rest, outcome);
            lemma_closes(
                settings,
                path,
                trace,
                work,
                "closing OS-9 directory"@,
                front + (one + two + three),
                rest,
                outcome,
            );
            assert(front + (one + two + three) + rest =~= front + log);
        }
    }
}

/// A file that is read is closed again, also when reading it fails.
pub proof fn law_read_files_are_closed(
    settings: Settings,
    path: Seq<char>,
    chunk_size: nat,
    trace: bool,
    log: Seq<Event>,
    outcome: Result<Seq<u8>, Os9Failure>,
)
    requires
        follows(log, service::get_file(settings, path, chunk_size, trace), outcome),
    ensures
        closes(settings, path, trace, "closing OS-9 source file"@, log, outcome) || (outcome matches
            Err(failure) && before_file(failure)),
{
    let whole = service::get_file(settings, path, chunk_size, trace);
    if stub::valid_chunk_size(chunk_size) && !service::holds_nul(path) {
        let steps = service::source_steps();
        let names = seq![
            "setting registers for OS-9 file open"@,
            "opening OS-9 source file"@,
            "allocating OS-9 file data buffer"@,
        ];
        let placing = service::place_path(settings, path, steps);
        let (one, placed, rest, next) = lemma_first(placing, whole, log, outcome);
        lemma_place_path(settings, path, steps, one, placed);
        if placed is Err {
            assert(rest.len() == 0);
        } else {
            let line = call_line("I$Open"@, path) + " (read)"@;
            let values = seq![OS9_FILE_READ, placed->Ok_0];
            let opening = service::call_with(
                settings,
                trace,
                line,
                REG_D0 | REG_A0,
                values,
                names[0],
                OS9_I_OPEN,
                names[1],
            );
            let (two, refused, rest, next) = lemma_first(opening, next, rest, outcome);
            lemma_call_with(
                settings,
                trace,
                line,
                REG_D0 | REG_A0,
                values,
                names[0],
                OS9_I_OPEN,
                names[1],
                two,
                refused,
            );
            if refused is Err {
                assert(rest.len() == 0);
                let step = refused->Err_0->Stub_step;
                lemma_names(outcome->Err_0, names, if step == names[0] { 0 } else { 1 });
            } else if refused->Ok_0 {
                assert(rest.len() == 0);
            } else {
                let allocating = stub::allocate_buffer(settings, chunk_size);
                let (three, buffer, rest, next) = lemma_first(allocating, next, rest, outcome);
                if buffer is Err {
                    assert(rest.len() == 0);
                    lemma_names(outcome->Err_0, names, 2);
                } else {
                    let reading = service::read_open_file(
                        settings,
                        path,
                        chunk_size,
                        trace,
                        buffer->Ok_0.1,
                    );
                    let (four, work, rest, _) = lemma_first(reading, next, rest, outcome);
                    lemma_closes(
                        settings,
                        path,
                        trace,
                        work,
                        "closing OS-9 source file"@,
                        one + two + three + four,
                        rest,
                        outcome,
                    );
                    assert(one + two + three + four + rest =~= log);
                }
            }
        }
    }
}

/// A file that is created is closed again, also when writing it fails.
pub proof fn law_new_files_are_closed(
    settings: Settings,
    data: Seq<u8>,
    path: Seq<char>,
    chunk_size: nat,
    trace: bool,
    log: Seq<Event>,
    outcome: Result<(), Os9Failure>,
)
    requires
        follows(log, service::put_file(settings, data, path, chunk_size, trace), outcome),
    ensures
        closes(settings, path, trace, "closing OS-9 destination file"@, log, outcome) || (
        outcome matches Err(failure) && before_new_file(failure)),
{
    let whole = service::put_file(settings, data, path, chunk_size, trace);
    if stub::valid_chunk_size(chunk_size) && !service::holds_nul(path) {
        let steps = service::destination_steps();
        let names = seq![
            "setting registers for OS-9 file create"@,
            "creating OS-9 destination file"@,
            "allocating OS-9 file write buffer"@,
        ];
        let placing = service::place_path(settings, path, steps);
        let (one, placed, rest, next) = lemma_first(placing, whole, log, outcome);
        lemma_place_path(settings, path, steps, one, placed);
        if placed is Err {
            assert(rest.len() == 0);
        } else {
            let line = call_line("I$Create"@, path);
            let values = seq![OS9_FILE_READ_WRITE, OS9_OWNER_READ_WRITE, placed->Ok_0];
            let creating = service::call_with(
                settings,
                trace,
                line,
                REG_D0 | REG_D1 | REG_A0,
                values,
                names[0],
                OS9_I_CREATE,
                names[1],
            );
            let (two, refused, rest, next) = lemma_first(creating, next, rest, outcome);
            lemma_call_with(
                settings,
                trace,
                line,
                REG_D0 | REG_D1 | REG_A0,
                values,
                names[0],
                OS9_I_CREATE,
                names[1],
                two,
                refused,
            );
            if refused is Err {
                assert(rest.len() == 0);
                let step = refused->Err_0->Stub_step;
                lemma_names(outcome->Err_0, names, if step == names[0] { 0 } else { 1 });
            } else if refused->Ok_0 {
                assert(rest.len() == 0);
            } else {
                let allocating = stub::allocate_buffer(settings, chunk_size);
                let (three, buffer, rest, next) = lemma_first(allocating, next, rest, outcome);
                if buffer is Err {
                    assert(rest.len() == 0);
                    lemma_names(outcome->Err_0, names, 2);
                } else {
                    let putting = service::put_chunks(
                        settings,
                        path,
                        chunk_size,
                        trace,
                        buffer->Ok_0.1,
                        data,
                    );
                    let (four, work, rest, _) = lemma_first(putting, next, rest, outcome);
                    lemma_closes(
                        settings,
                        path,
                        trace,
                        work,
                        "closing OS-9 destination file"@,
                        one + two + three + four,
                        rest,
                        outcome,
                    );
                    assert(one + two + three + four + rest =~= log);
                }
            }
        }
    }
}

} // verus!
