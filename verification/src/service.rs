//! The dialogues of the OS-9 file service that a full Stub provides.
//!
//! As with the protocol itself, each function here is the dialogue of the
//! operation of the same name.

use vstd::prelude::*;
use vstd::utf8::encode_utf8;

use crate::dialogue::{attempt, chain, turn, Dialogue};
use crate::directory::listed;
use crate::error::Failure;
use crate::frame::{value32, REG_A0, REG_CARRY, REG_D0, REG_D1};
use crate::line::{Call, Reply};
use crate::stub;
use crate::stub::{chunk_length, valid_chunk_size, Settings};
use crate::text::{debug_form, decimal};

verus! {

pub const OS9_I_OPEN: u16 = 0x84;

pub const OS9_I_CREATE: u16 = 0x83;

pub const OS9_I_DELETE: u16 = 0x87;

pub const OS9_I_READ: u16 = 0x89;

pub const OS9_I_WRITE: u16 = 0x8a;

pub const OS9_I_CLOSE: u16 = 0x8f;

pub const OS9_I_GETSTT: u16 = 0x8d;

pub const OS9_DIRECTORY_READ: u32 = 0x81;

pub const OS9_FILE_READ: u32 = 0x01;

pub const OS9_FILE_READ_WRITE: u32 = 0x03;

pub const OS9_OWNER_READ_WRITE: u32 = 0x03;

pub const OS9_DIRECTORY_ENTRY_SIZE: usize = 32;

/// What an [`Os9Error`](crate::os9::Os9Error) says, as a value.
pub enum Os9Failure {
    InvalidReadSize,
    InvalidChunkSize,
    RelativePath,
    NulInPath { role: Seq<char> },
    SmallBuffer { role: Seq<char> },
    Stub { step: Seq<char>, error: Failure },
    OpenDirectory { path: Seq<char> },
    DirectoryStatus { path: Seq<char> },
    OpenFile { path: Seq<char> },
    Create { path: Seq<char> },
    Write { path: Seq<char>, code: u32 },
    Delete { path: Seq<char>, code: u32 },
    /// What was read does not fit in memory. The operations never report this:
    /// they do not go on then.
    OutOfMemory,
}

/// The mask that an OS-9 call returned says that the call failed.
pub open spec fn carry(mask: u32) -> bool {
    mask & REG_CARRY != 0
}

/// A path as OS-9 expects it: its bytes, with a zero byte at the end.
pub open spec fn path_bytes(path: Seq<char>) -> Seq<u8> {
    encode_utf8(path).push(0)
}

/// The path holds a zero byte, which OS-9 would take for its end.
pub open spec fn holds_nul(path: Seq<char>) -> bool {
    encode_utf8(path).contains(0)
}

/// A step of a longer operation: if it fails, the failure says which step.
pub open spec fn step<A, B>(
    name: Seq<char>,
    first: Dialogue<Result<A, Failure>>,
    next: spec_fn(A) -> Dialogue<Result<B, Os9Failure>>,
) -> Dialogue<Result<B, Os9Failure>> {
    chain(
        first,
        |outcome: Result<A, Failure>|
            match outcome {
                Ok(result) => next(result),
                Err(error) => Dialogue::Over(Err(Os9Failure::Stub { step: name, error })),
            },
    )
}

/// A diagnostic line about an OS-9 call: its name and the quoted path.
pub open spec fn call_line(call: Seq<char>, path: Seq<char>) -> Seq<char> {
    call + " "@ + debug_form(path)
}

/// A diagnostic line about an OS-9 call on a number of bytes.
pub open spec fn sized_call_line(
    call: Seq<char>,
    path: Seq<char>,
    count: nat,
    unit: Seq<char>,
) -> Seq<char> {
    call_line(call, path) + " ("@ + decimal(count) + unit
}

/// Shows a diagnostic line, if that is wanted.
pub open spec fn os9_trace(enabled: bool, line: Seq<char>) -> Dialogue<()> {
    if enabled {
        chain(turn(Call::Note(line)), |reply: Reply| Dialogue::Over(()))
    } else {
        Dialogue::Over(())
    }
}

/// What the steps that bring a path to the player are called.
pub struct PathSteps {
    /// The role of the path, in the message about a buffer that is too small.
    pub role: Seq<char>,
    pub allocating: Seq<char>,
    pub writing: Seq<char>,
}

/// Puts a path into a buffer of the player and returns the buffer's address.
///
/// Address zero is selected first: a freshly activated Stub does not otherwise
/// guarantee a useful current-address state.
#[verifier::opaque]
pub open spec fn place_path(settings: Settings, path: Seq<char>, steps: PathSteps) -> Dialogue<
    Result<u32, Os9Failure>,
> {
    step(
        "initializing full Stub address"@,
        stub::set_address(settings, 0),
        |_set: ()|
            step(
                steps.allocating,
                stub::allocate_buffer(settings, path_bytes(path).len()),
                |buffer: (usize, u32)|
                    if buffer.0 < path_bytes(path).len() {
                        Dialogue::Over(Err(Os9Failure::SmallBuffer { role: steps.role }))
                    } else {
                        step(
                            steps.writing,
                            stub::write(settings, path_bytes(path)),
                            |_written: ()| Dialogue::Over(Ok(buffer.1)),
                        )
                    },
            ),
    )
}

/// Sets registers, shows a line, and makes an OS-9 call on the open path. The
/// result says whether OS-9 reported an error.
#[verifier::opaque]
pub open spec fn call_with(
    settings: Settings,
    trace: bool,
    line: Seq<char>,
    mask: u32,
    values: Seq<u32>,
    setting: Seq<char>,
    call: u16,
    calling: Seq<char>,
) -> Dialogue<Result<bool, Os9Failure>> {
    step(
        setting,
        stub::set_registers(settings, mask, values),
        |_set: ()| plain_call(settings, trace, line, call, calling),
    )
}

/// Shows a line and makes an OS-9 call with the registers as they are.
#[verifier::opaque]
pub open spec fn plain_call(
    settings: Settings,
    trace: bool,
    line: Seq<char>,
    call: u16,
    calling: Seq<char>,
) -> Dialogue<Result<bool, Os9Failure>> {
    chain(
        os9_trace(trace, line),
        |_traced: ()|
            step(
                calling,
                stub::os9_call(settings, call, 0),
                |mask: u32| Dialogue::Over(Ok(carry(mask))),
            ),
    )
}

/// Fetches what an I$Read call left in a buffer. The number of valid bytes is
/// in the low word of D1; nothing is fetched if it is zero or larger than what
/// was asked for, and the result is then empty.
#[verifier::opaque]
pub open spec fn fetch(
    settings: Settings,
    buffer: u32,
    limit: nat,
    selecting: Seq<char>,
    reading: Seq<char>,
    addressing: Seq<char>,
    fetching: Seq<char>,
) -> Dialogue<Result<Seq<u8>, Os9Failure>> {
    step(
        selecting,
        stub::select_registers(settings, REG_D0 | REG_D1),
        |_selected: ()|
            step(
                reading,
                stub::read(settings, 8),
                |registers: Seq<u8>|
                    {
                        let valid = (value32(registers.skip(4)) % 0x1_0000) as nat;
                        if valid == 0 || valid > limit {
                            Dialogue::Over(Ok(seq![]))
                        } else {
                            step(
                                addressing,
                                stub::set_address(settings, buffer),
                                |_set: ()|
                                    step(
                                        fetching,
                                        stub::read(settings, valid),
                                        |bytes: Seq<u8>| Dialogue::Over(Ok(bytes)),
                                    ),
                            )
                        }
                    },
            ),
    )
}

/// Closes the open path. That is done whether or not `work` succeeded; the
/// failure of the work comes before that of closing.
#[verifier::opaque]
pub open spec fn close<A>(
    settings: Settings,
    path: Seq<char>,
    trace: bool,
    work: Result<A, Os9Failure>,
    closing: Seq<char>,
) -> Dialogue<Result<A, Os9Failure>> {
    chain(
        os9_trace(trace, call_line("I$Close"@, path)),
        |_traced: ()|
            chain(
                stub::os9_call(settings, OS9_I_CLOSE, 0),
                |closed: Result<u32, Failure>|
                    match (work, closed) {
                        (Ok(_), Err(error)) => Dialogue::Over(
                            Err(Os9Failure::Stub { step: closing, error }),
                        ),
                        _ => Dialogue::Over(work),
                    },
            ),
    )
}

/// Reads the rest of an open directory, after `data`. A directory that does not
/// fit in memory cannot be read.
pub open spec fn directory_data(
    settings: Settings,
    path: Seq<char>,
    read_size: nat,
    trace: bool,
    buffer: u32,
    data: Seq<u8>,
) -> Dialogue<Result<Seq<u8>, Os9Failure>>
    decreases usize::MAX - data.len(),
{
    attempt(
        call_with(
            settings,
            trace,
            sized_call_line("I$Read"@, path, read_size, " bytes requested)"@),
            REG_D1,
            seq![read_size as u32],
            "setting registers for OS-9 directory read"@,
            OS9_I_READ,
            "reading OS-9 directory"@,
        ),
        |at_end: bool|
            if at_end {
                Dialogue::Over(Ok(data))
            } else {
                attempt(
                    fetch(
                        settings,
                        buffer,
                        read_size,
                        "selecting OS-9 directory result registers"@,
                        "reading OS-9 directory result registers"@,
                        "selecting OS-9 directory data buffer"@,
                        "reading OS-9 directory data from Stub"@,
                    ),
                    |bytes: Seq<u8>|
                        if bytes.len() == 0 {
                            Dialogue::Over(Ok(data))
                        } else if data.len() + bytes.len() <= usize::MAX {
                            directory_data(
                                settings,
                                path,
                                read_size,
                                trace,
                                buffer,
                                data + bytes,
                            )
                        } else {
                            Dialogue::Over(Err(Os9Failure::OutOfMemory))
                        },
                )
            },
    )
}

/// The steps that bring the path of a directory to the player.
pub open spec fn directory_steps() -> PathSteps {
    PathSteps {
        role: "path"@,
        allocating: "allocating OS-9 path buffer"@,
        writing: "writing OS-9 directory path"@,
    }
}

/// Reads an open directory and closes it.
///
/// The path status (SS.Opt, function value zero) is queried before the first
/// read, and its first byte is read: the file manager uses the query to
/// initialise its directory state.
#[verifier::opaque]
pub open spec fn read_open_directory(
    settings: Settings,
    path: Seq<char>,
    read_size: nat,
    trace: bool,
    buffer: u32,
) -> Dialogue<Result<Seq<u8>, Os9Failure>> {
    attempt(
        call_with(
            settings,
            trace,
            call_line("I$GetStt"@, path),
            REG_D1 | REG_A0,
            seq![0, buffer],
            "setting registers for OS-9 directory status"@,
            OS9_I_GETSTT,
            "querying OS-9 directory status"@,
        ),
        |refused: bool|
            if refused {
                Dialogue::Over(Err(Os9Failure::DirectoryStatus { path }))
            } else {
                step(
                    "reading OS-9 directory status byte"@,
                    stub::read(settings, 1),
                    |status: Seq<u8>|
                        chain(
                            directory_data(settings, path, read_size, trace, buffer, seq![]),
                            |work: Result<Seq<u8>, Os9Failure>|
                                close(settings, path, trace, work, "closing OS-9 directory"@),
                        ),
                )
            },
    )
}

/// Reads all of a directory, `read_size` bytes at a time.
pub open spec fn read_directory(
    settings: Settings,
    path: Seq<char>,
    read_size: nat,
    trace: bool,
) -> Dialogue<Result<Seq<u8>, Os9Failure>> {
    if !valid_chunk_size(read_size) || read_size % OS9_DIRECTORY_ENTRY_SIZE as nat != 0 {
        Dialogue::Over(Err(Os9Failure::InvalidReadSize))
    } else if holds_nul(path) {
        Dialogue::Over(Err(Os9Failure::NulInPath { role: "directory path"@ }))
    } else {
        attempt(
            place_path(settings, path, directory_steps()),
            |path_buffer: u32|
                attempt(
                    call_with(
                        settings,
                        trace,
                        call_line("I$Open"@, path) + " (directory)"@,
                        REG_D0 | REG_A0,
                        seq![OS9_DIRECTORY_READ, path_buffer],
                        "setting registers for OS-9 directory open"@,
                        OS9_I_OPEN,
                        "opening OS-9 directory"@,
                    ),
                    |refused: bool|
                        if refused {
                            Dialogue::Over(Err(Os9Failure::OpenDirectory { path }))
                        } else {
                            step(
                                "allocating OS-9 directory data buffer"@,
                                stub::allocate_buffer(settings, read_size),
                                |buffer: (usize, u32)|
                                    read_open_directory(
                                        settings,
                                        path,
                                        read_size,
                                        trace,
                                        buffer.1,
                                    ),
                            )
                        },
                ),
        )
    }
}

/// Reads a directory and shows it.
pub open spec fn list_directory(
    settings: Settings,
    path: Seq<char>,
    read_size: nat,
    trace: bool,
) -> Dialogue<Result<(Seq<Seq<char>>, nat), Os9Failure>> {
    attempt(
        read_directory(settings, path, read_size, trace),
        |data: Seq<u8>| Dialogue::Over(Ok(listed(data))),
    )
}

/// Reads the rest of an open file, after `data`. A file that does not fit in
/// memory cannot be read.
pub open spec fn file_data(
    settings: Settings,
    path: Seq<char>,
    chunk_size: nat,
    trace: bool,
    buffer: u32,
    data: Seq<u8>,
) -> Dialogue<Result<Seq<u8>, Os9Failure>>
    decreases usize::MAX - data.len(),
{
    attempt(
        plain_call(
            settings,
            trace,
            sized_call_line("I$Read"@, path, chunk_size, " bytes requested)"@),
            OS9_I_READ,
            "reading OS-9 source file"@,
        ),
        |at_end: bool|
            if at_end {
                Dialogue::Over(Ok(data))
            } else {
                attempt(
                    fetch(
                        settings,
                        buffer,
                        chunk_size,
                        "selecting OS-9 file result registers"@,
                        "reading OS-9 file result registers"@,
                        "selecting OS-9 file data buffer"@,
                        "reading OS-9 file data from Stub"@,
                    ),
                    |bytes: Seq<u8>|
                        if bytes.len() == 0 {
                            Dialogue::Over(Ok(data))
                        } else if data.len() + bytes.len() <= usize::MAX {
                            step(
                                "setting registers for next OS-9 file read"@,
                                stub::set_registers(settings, REG_D1, seq![chunk_size as u32]),
                                |_set: ()|
                                    file_data(
                                        settings,
                                        path,
                                        chunk_size,
                                        trace,
                                        buffer,
                                        data + bytes,
                                    ),
                            )
                        } else {
                            Dialogue::Over(Err(Os9Failure::OutOfMemory))
                        },
                )
            },
    )
}

/// The steps that bring the path of a file to be read to the player.
pub open spec fn source_steps() -> PathSteps {
    PathSteps {
        role: "source-path"@,
        allocating: "allocating OS-9 source-path buffer"@,
        writing: "writing OS-9 source path"@,
    }
}

/// Reads an open file from its beginning.
#[verifier::opaque]
pub open spec fn read_open_file(
    settings: Settings,
    path: Seq<char>,
    chunk_size: nat,
    trace: bool,
    buffer: u32,
) -> Dialogue<Result<Seq<u8>, Os9Failure>> {
    step(
        "setting registers for OS-9 file read"@,
        stub::set_registers(settings, REG_D1 | REG_A0, seq![chunk_size as u32, buffer]),
        |_set: ()| file_data(settings, path, chunk_size, trace, buffer, seq![]),
    )
}

/// Reads all of a file, `chunk_size` bytes at a time.
pub open spec fn get_file(
    settings: Settings,
    path: Seq<char>,
    chunk_size: nat,
    trace: bool,
) -> Dialogue<Result<Seq<u8>, Os9Failure>> {
    if !valid_chunk_size(chunk_size) {
        Dialogue::Over(Err(Os9Failure::InvalidChunkSize))
    } else if holds_nul(path) {
        Dialogue::Over(Err(Os9Failure::NulInPath { role: "source path"@ }))
    } else {
        attempt(
            place_path(settings, path, source_steps()),
            |path_buffer: u32|
                attempt(
                    call_with(
                        settings,
                        trace,
                        call_line("I$Open"@, path) + " (read)"@,
                        REG_D0 | REG_A0,
                        seq![OS9_FILE_READ, path_buffer],
                        "setting registers for OS-9 file open"@,
                        OS9_I_OPEN,
                        "opening OS-9 source file"@,
                    ),
                    |refused: bool|
                        if refused {
                            Dialogue::Over(Err(Os9Failure::OpenFile { path }))
                        } else {
                            step(
                                "allocating OS-9 file data buffer"@,
                                stub::allocate_buffer(settings, chunk_size),
                                |buffer: (usize, u32)|
                                    chain(
                                        read_open_file(
                                            settings,
                                            path,
                                            chunk_size,
                                            trace,
                                            buffer.1,
                                        ),
                                        |work: Result<Seq<u8>, Os9Failure>|
                                            close(
                                                settings,
                                                path,
                                                trace,
                                                work,
                                                "closing OS-9 source file"@,
                                            ),
                                    ),
                            )
                        },
                ),
        )
    }
}

/// Reads the error code of a failed call from D1.
#[verifier::opaque]
pub open spec fn error_code(
    settings: Settings,
    selecting: Seq<char>,
    reading: Seq<char>,
) -> Dialogue<Result<u32, Os9Failure>> {
    step(
        selecting,
        stub::select_registers(settings, REG_D1),
        |_selected: ()|
            step(
                reading,
                stub::read(settings, 4),
                |code: Seq<u8>| Dialogue::Over(Ok(value32(code))),
            ),
    )
}

/// Writes one chunk to the open file.
#[verifier::opaque]
pub open spec fn put_chunk(
    settings: Settings,
    path: Seq<char>,
    trace: bool,
    buffer: u32,
    chunk: Seq<u8>,
) -> Dialogue<Result<(), Os9Failure>> {
    step(
        "setting registers for OS-9 file write"@,
        stub::set_registers(settings, REG_D1 | REG_A0, seq![chunk.len() as u32, buffer]),
        |_set: ()|
            step(
                "selecting OS-9 file write buffer"@,
                stub::set_address(settings, buffer),
                |_addressed: ()|
                    step(
                        "copying host file data to Stub buffer"@,
                        stub::write(settings, chunk),
                        |_copied: ()|
                            attempt(
                                plain_call(
                                    settings,
                                    trace,
                                    sized_call_line("I$Write"@, path, chunk.len(), " bytes)"@),
                                    OS9_I_WRITE,
                                    "writing OS-9 destination file"@,
                                ),
                                |refused: bool|
                                    if refused {
                                        attempt(
                                            error_code(
                                                settings,
                                                "selecting OS-9 write error register"@,
                                                "reading OS-9 write error register"@,
                                            ),
                                            |code: u32|
                                                Dialogue::Over(
                                                    Err(Os9Failure::Write { path, code }),
                                                ),
                                        )
                                    } else {
                                        Dialogue::Over(Ok(()))
                                    },
                            ),
                    ),
            ),
    )
}

/// Writes data to the open file, in chunks; the last one may be shorter.
pub open spec fn put_chunks(
    settings: Settings,
    path: Seq<char>,
    chunk_size: nat,
    trace: bool,
    buffer: u32,
    data: Seq<u8>,
) -> Dialogue<Result<(), Os9Failure>>
    decreases data.len(),
{
    if data.len() == 0 || chunk_size == 0 {
        Dialogue::Over(Ok(()))
    } else {
        attempt(
            put_chunk(
                settings,
                path,
                trace,
                buffer,
                data.take(chunk_length(data.len(), chunk_size) as int),
            ),
            |_put: ()|
                put_chunks(
                    settings,
                    path,
                    chunk_size,
                    trace,
                    buffer,
                    data.skip(chunk_length(data.len(), chunk_size) as int),
                ),
        )
    }
}

/// The steps that bring the path of a file to be created to the player.
pub open spec fn destination_steps() -> PathSteps {
    PathSteps {
        role: "destination-path"@,
        allocating: "allocating OS-9 destination-path buffer"@,
        writing: "writing OS-9 destination path"@,
    }
}

/// Creates a file and fills it with data, `chunk_size` bytes at a time.
pub open spec fn put_file(
    settings: Settings,
    data: Seq<u8>,
    path: Seq<char>,
    chunk_size: nat,
    trace: bool,
) -> Dialogue<Result<(), Os9Failure>> {
    if !valid_chunk_size(chunk_size) {
        Dialogue::Over(Err(Os9Failure::InvalidChunkSize))
    } else if holds_nul(path) {
        Dialogue::Over(Err(Os9Failure::NulInPath { role: "destination path"@ }))
    } else {
        attempt(
            place_path(settings, path, destination_steps()),
            |path_buffer: u32|
                attempt(
                    call_with(
                        settings,
                        trace,
                        call_line("I$Create"@, path),
                        REG_D0 | REG_D1 | REG_A0,
                        seq![OS9_FILE_READ_WRITE, OS9_OWNER_READ_WRITE, path_buffer],
                        "setting registers for OS-9 file create"@,
                        OS9_I_CREATE,
                        "creating OS-9 destination file"@,
                    ),
                    |refused: bool|
                        if refused {
                            Dialogue::Over(Err(Os9Failure::Create { path }))
                        } else {
                            step(
                                "allocating OS-9 file write buffer"@,
                                stub::allocate_buffer(settings, chunk_size),
                                |buffer: (usize, u32)|
                                    chain(
                                        put_chunks(
                                            settings,
                                            path,
                                            chunk_size,
                                            trace,
                                            buffer.1,
                                            data,
                                        ),
                                        |work: Result<(), Os9Failure>|
                                            close(
                                                settings,
                                                path,
                                                trace,
                                                work,
                                                "closing OS-9 destination file"@,
                                            ),
                                    ),
                            )
                        },
                ),
        )
    }
}

/// The steps that bring the path of a file to be deleted to the player.
pub open spec fn deletion_steps() -> PathSteps {
    PathSteps {
        role: "delete-path"@,
        allocating: "allocating OS-9 delete-path buffer"@,
        writing: "writing OS-9 delete path"@,
    }
}

/// Deletes a file.
pub open spec fn delete_file(settings: Settings, path: Seq<char>, trace: bool) -> Dialogue<
    Result<(), Os9Failure>,
> {
    if !(path.len() > 0 && path[0] == '/') {
        Dialogue::Over(Err(Os9Failure::RelativePath))
    } else if holds_nul(path) {
        Dialogue::Over(Err(Os9Failure::NulInPath { role: "path to delete"@ }))
    } else {
        attempt(
            place_path(settings, path, deletion_steps()),
            |path_buffer: u32|
                attempt(
                    call_with(
                        settings,
                        trace,
                        call_line("I$Delete"@, path),
                        REG_D0 | REG_A0,
                        seq![OS9_FILE_READ_WRITE, path_buffer],
                        "setting registers for OS-9 file delete"@,
                        OS9_I_DELETE,
                        "deleting OS-9 file"@,
                    ),
                    |refused: bool|
                        if refused {
                            attempt(
                                error_code(
                                    settings,
                                    "selecting OS-9 delete error register"@,
                                    "reading OS-9 delete error register"@,
                                ),
                                |code: u32|
                                    Dialogue::Over(Err(Os9Failure::Delete { path, code })),
                            )
                        } else {
                            Dialogue::Over(Ok(()))
                        },
                ),
        )
    }
}

} // verus!
