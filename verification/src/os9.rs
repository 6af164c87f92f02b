//! OS-9 directories and files of a player, through a running full Stub.

use vstd::prelude::*;
use vstd::slice::slice_subrange;
use vstd::string::*;

use crate::dialogue::{lemma_last, lemma_part, lemma_start, reaches, Dialogue};
use crate::directory::{directory_listing, Listing};
use crate::error::{shown, Error};
use crate::frame::{read_be32, REG_A0, REG_CARRY, REG_D0, REG_D1};
use crate::service;
use crate::service::{
    call_line, sized_call_line, Os9Failure, PathSteps, OS9_DIRECTORY_ENTRY_SIZE,
    OS9_DIRECTORY_READ, OS9_FILE_READ, OS9_FILE_READ_WRITE, OS9_I_CLOSE, OS9_I_CREATE,
    OS9_I_DELETE, OS9_I_GETSTT, OS9_I_OPEN, OS9_I_READ, OS9_I_WRITE, OS9_OWNER_READ_WRITE,
};
use crate::session::Session;
use crate::stub;
use crate::text::{debug_form, debug_text, decimal_text, hex8, push_hex8};
use crate::transport::Transport;

verus! {

/// What can go wrong in an OS-9 operation.
#[derive(Debug)]
pub enum Os9Error {
    InvalidReadSize,
    InvalidChunkSize,
    RelativePath,
    NulInPath { role: &'static str },
    SmallBuffer { role: &'static str },
    /// A step of the operation failed in the session.
    Stub { step: &'static str, error: Error },
    OpenDirectory { path: String },
    DirectoryStatus { path: String },
    OpenFile { path: String },
    Create { path: String },
    Write { path: String, code: u32 },
    Delete { path: String, code: u32 },
}

impl View for Os9Error {
    type V = Os9Failure;

    open spec fn view(&self) -> Os9Failure {
        match self {
            Os9Error::InvalidReadSize => Os9Failure::InvalidReadSize,
            Os9Error::InvalidChunkSize => Os9Failure::InvalidChunkSize,
            Os9Error::RelativePath => Os9Failure::RelativePath,
            Os9Error::NulInPath { role } => Os9Failure::NulInPath { role: role@ },
            Os9Error::SmallBuffer { role } => Os9Failure::SmallBuffer { role: role@ },
            Os9Error::Stub { step, error } => Os9Failure::Stub { step: step@, error: error@ },
            Os9Error::OpenDirectory { path } => Os9Failure::OpenDirectory { path: path@ },
            Os9Error::DirectoryStatus { path } => Os9Failure::DirectoryStatus { path: path@ },
            Os9Error::OpenFile { path } => Os9Failure::OpenFile { path: path@ },
            Os9Error::Create { path } => Os9Failure::Create { path: path@ },
            Os9Error::Write { path, code } => Os9Failure::Write { path: path@, code: *code },
            Os9Error::Delete { path, code } => Os9Failure::Delete { path: path@, code: *code },
        }
    }
}

/// The text that tells a user what went wrong.
pub open spec fn os9_failure_text(failure: Os9Failure) -> Seq<char> {
    match failure {
        Os9Failure::InvalidReadSize => {
            "--read-size must be a non-zero multiple of 32, up to 65535"@
        },
        Os9Failure::InvalidChunkSize => "--chunk-size must be in 1..=65535"@,
        Os9Failure::RelativePath => {
            "delete requires an absolute OS-9 path, such as /nvr/old-file"@
        },
        Os9Failure::NulInPath { role } => role + " must not contain a NUL byte"@,
        Os9Failure::SmallBuffer { role } => "full Stub allocated an unexpectedly small OS-9 "@
            + role + " buffer"@,
        Os9Failure::Stub { step, error } => step,
        Os9Failure::OpenDirectory { path } => "OS-9 could not open directory "@ + debug_form(path)
            + " (error reported by Stub)"@,
        Os9Failure::DirectoryStatus { path } => "OS-9 could not query directory status for "@
            + debug_form(path),
        Os9Failure::OpenFile { path } => "OS-9 could not open source file "@ + debug_form(path)
            + " (error reported by Stub)"@,
        Os9Failure::Create { path } => "OS-9 could not create destination file "@ + debug_form(
            path,
        ) + "; it may already exist"@,
        Os9Failure::Write { path, code } => "OS-9 reported error 0x"@ + hex8(code)
            + " while writing "@ + debug_form(path),
        Os9Failure::Delete { path, code } => "OS-9 could not delete "@ + debug_form(path)
            + " (error 0x"@ + hex8(code) + ")"@,
        Os9Failure::OutOfMemory => "out of memory"@,
    }
}

/// Two texts around a quoted path.
fn around_path(before: &str, path: &str, after: &str) -> (text: String)
    ensures
        text@ == before@ + debug_form(path@) + after@,
{
    let mut text: String = before.to_owned();
    text.append(debug_text(path).as_str());
    text.append(after);
    text
}

impl Os9Error {
    /// The text that tells a user what went wrong. For a failed step it names
    /// the step; the error itself has a text of its own.
    pub fn message(&self) -> (text: String)
        ensures
            text@ == os9_failure_text(self@),
    {
        match self {
            Os9Error::InvalidReadSize => {
                "--read-size must be a non-zero multiple of 32, up to 65535".to_owned()
            },
            Os9Error::InvalidChunkSize => "--chunk-size must be in 1..=65535".to_owned(),
            Os9Error::RelativePath => {
                "delete requires an absolute OS-9 path, such as /nvr/old-file".to_owned()
            },
            Os9Error::NulInPath { role } => {
                let mut text: String = (*role).to_owned();
                text.append(" must not contain a NUL byte");
                text
            },
            Os9Error::SmallBuffer { role } => {
                let mut text: String = "full Stub allocated an unexpectedly small OS-9 ".to_owned();
                text.append(*role);
                text.append(" buffer");
                text
            },
            Os9Error::Stub { step, error } => (*step).to_owned(),
            Os9Error::OpenDirectory { path } => around_path(
                "OS-9 could not open directory ",
                path.as_str(),
                " (error reported by Stub)",
            ),
            Os9Error::DirectoryStatus { path } => {
                let mut text: String = "OS-9 could not query directory status for ".to_owned();
                text.append(debug_text(path.as_str()).as_str());
                text
            },
            Os9Error::OpenFile { path } => around_path(
                "OS-9 could not open source file ",
                path.as_str(),
                " (error reported by Stub)",
            ),
            Os9Error::Create { path } => around_path(
                "OS-9 could not create destination file ",
                path.as_str(),
                "; it may already exist",
            ),
            Os9Error::Write { path, code } => {
                let mut text: String = "OS-9 reported error 0x".to_owned();
                push_hex8(&mut text, *code);
                text.append(" while writing ");
                text.append(debug_text(path.as_str()).as_str());
                text
            },
            Os9Error::Delete { path, code } => {
                let mut text: String = around_path(
                    "OS-9 could not delete ",
                    path.as_str(),
                    " (error 0x",
                );
                push_hex8(&mut text, *code);
                text.append(")");
                text
            },
        }
    }
}

/// A diagnostic line about an OS-9 call: its name and the quoted path.
pub(crate) fn call_text(call: &str, path: &str) -> (line: String)
    ensures
        line@ == call_line(call@, path@),
{
    let mut line: String = call.to_owned();
    line.append(" ");
    line.append(debug_text(path).as_str());
    line
}

/// A diagnostic line about an OS-9 call on a number of bytes.
fn sized_call_text(call: &str, path: &str, count: usize, unit: &str) -> (line: String)
    ensures
        line@ == sized_call_line(call@, path@, count as nat, unit@),
{
    let mut line: String = call_text(call, path);
    line.append(" (");
    line.append(decimal_text(count as u64).as_str());
    line.append(unit);
    line
}

/// The path holds a zero byte.
fn has_nul(path: &str) -> (found: bool)
    ensures
        found == service::holds_nul(path@),
{
    let bytes = path.as_bytes();
    let mut i: usize = 0;
    while i < bytes.len()
        invariant
            i <= bytes@.len(),
            bytes@ == path.spec_bytes(),
            forall|j: int| 0 <= j < i ==> bytes@[j] != 0,
        decreases bytes@.len() - i,
    {
        if bytes[i] == 0 {
            assert(bytes@.contains(bytes@[i as int]));
            return true;
        }
        i = i + 1;
    }
    false
}

/// Puts a path into a buffer of the player and returns the buffer's address.
fn place_path<T: Transport>(
    session: &mut Session<T>,
    path: &str,
    role: &'static str,
    allocating: &'static str,
    writing: &'static str,
) -> (result: Result<u32, Os9Error>)
    ensures
        old(session).carried_out(
            final(session),
            service::place_path(
                old(session).settings(),
                path@,
                PathSteps { role: role@, allocating: allocating@, writing: writing@ },
            ),
            shown(result),
        ),
{
    let ghost start = session.log();
    let ghost settings = session.settings();
    let ghost whole = service::place_path(
        settings,
        path@,
        PathSteps { role: role@, allocating: allocating@, writing: writing@ },
    );
    proof {
        reveal(service::place_path);
        lemma_start(start, whole);
    }
    // A freshly activated Stub does not otherwise guarantee a useful
    // current-address state.
    let addressed = session.set_address(0);
    proof {
        lemma_part(
            start,
            whole,
            start,
            stub::set_address(settings, 0),
            session.log(),
            shown(addressed),
        );
    }
    if let Err(error) = addressed {
        return Err(Os9Error::Stub { step: "initializing full Stub address", error });
    }
    let mut bytes: Vec<u8> = path.as_bytes_vec();
    bytes.push(0);
    assert(bytes@ =~= service::path_bytes(path@));
    let ghost before = session.log();
    let buffer = session.allocate_buffer(bytes.len());
    proof {
        lemma_part(
            start,
            whole,
            before,
            stub::allocate_buffer(settings, bytes@.len()),
            session.log(),
            shown(buffer),
        );
    }
    let (size, address): (usize, u32) = match buffer {
        Ok(buffer) => buffer,
        Err(error) => {
            return Err(Os9Error::Stub { step: allocating, error });
        },
    };
    if size < bytes.len() {
        return Err(Os9Error::SmallBuffer { role });
    }
    let ghost before = session.log();
    let written = session.write(bytes.as_slice());
    proof {
        lemma_part(
            start,
            whole,
            before,
            stub::write(settings, bytes@),
            session.log(),
            shown(written),
        );
    }
    match written {
        Ok(_) => Ok(address),
        Err(error) => Err(Os9Error::Stub { step: writing, error }),
    }
}

/// Shows a line and makes an OS-9 call with the registers as they are.
fn plain_call<T: Transport>(
    session: &mut Session<T>,
    trace: bool,
    line: &str,
    call: u16,
    calling: &'static str,
) -> (result: Result<bool, Os9Error>)
    ensures
        old(session).carried_out(
            final(session),
            service::plain_call(old(session).settings(), trace, line@, call, calling@),
            shown(result),
        ),
{
    let ghost start = session.log();
    let ghost settings = session.settings();
    let ghost whole = service::plain_call(settings, trace, line@, call, calling@);
    proof {
        reveal(service::plain_call);
        lemma_start(start, whole);
    }
    session.os9_trace(trace, line);
    proof {
        lemma_part(start, whole, start, service::os9_trace(trace, line@), session.log(), ());
    }
    let ghost before = session.log();
    let mask = session.os9_call(call, 0);
    proof {
        lemma_part(
            start,
            whole,
            before,
            stub::os9_call(settings, call, 0),
            session.log(),
            shown(mask),
        );
    }
    match mask {
        Ok(mask) => Ok(mask & REG_CARRY != 0),
        Err(error) => Err(Os9Error::Stub { step: calling, error }),
    }
}

/// Sets registers, shows a line, and makes an OS-9 call.
fn call_with<T: Transport>(
    session: &mut Session<T>,
    trace: bool,
    line: &str,
    mask: u32,
    values: &[u32],
    setting: &'static str,
    call: u16,
    calling: &'static str,
) -> (result: Result<bool, Os9Error>)
    ensures
        old(session).carried_out(
            final(session),
            service::call_with(
                old(session).settings(),
                trace,
                line@,
                mask,
                values@,
                setting@,
                call,
                calling@,
            ),
            shown(result),
        ),
{
    let ghost start = session.log();
    let ghost settings = session.settings();
    let ghost whole = service::call_with(
        settings,
        trace,
        line@,
        mask,
        values@,
        setting@,
        call,
        calling@,
    );
    proof {
        reveal(service::call_with);
        lemma_start(start, whole);
    }
    let set = session.set_registers(mask, values);
    proof {
        lemma_part(
            start,
            whole,
            start,
            stub::set_registers(settings, mask, values@),
            session.log(),
            shown(set),
        );
    }
    if let Err(error) = set {
        return Err(Os9Error::Stub { step: setting, error });
    }
    let ghost before = session.log();
    let called = plain_call(session, trace, line, call, calling);
    proof {
        lemma_last(
            start,
            whole,
            before,
            service::plain_call(settings, trace, line@, call, calling@),
            session.log(),
            Dialogue::Over(shown(called)),
        );
    }
    called
}

/// Fetches what an I$Read call left in a buffer. The result is empty if it left
/// nothing.
fn fetch<T: Transport>(
    session: &mut Session<T>,
    buffer: u32,
    limit: usize,
    selecting: &'static str,
    reading: &'static str,
    addressing: &'static str,
    fetching: &'static str,
) -> (result: Result<Vec<u8>, Os9Error>)
    ensures
        old(session).carried_out(
            final(session),
            service::fetch(
                old(session).settings(),
                buffer,
                limit as nat,
                selecting@,
                reading@,
                addressing@,
                fetching@,
            ),
            shown(result),
        ),
{
    let ghost start = session.log();
    let ghost settings = session.settings();
    let ghost whole = service::fetch(
        settings,
        buffer,
        limit as nat,
        selecting@,
        reading@,
        addressing@,
        fetching@,
    );
    proof {
        reveal(service::fetch);
        lemma_start(start, whole);
    }
    let selected = session.select_registers(REG_D0 | REG_D1);
    proof {
        lemma_part(
            start,
            whole,
            start,
            stub::select_registers(settings, REG_D0 | REG_D1),
            session.log(),
            shown(selected),
        );
    }
    if let Err(error) = selected {
        return Err(Os9Error::Stub { step: selecting, error });
    }
    let ghost before = session.log();
    let registers = session.read(8);
    proof {
        lemma_part(start, whole, before, stub::read(settings, 8), session.log(), shown(registers));
    }
    let registers: Vec<u8> = match registers {
        Ok(registers) => registers,
        Err(error) => {
            return Err(Os9Error::Stub { step: reading, error });
        },
    };
    let d1 = slice_subrange(registers.as_slice(), 4, 8);
    assert(d1@ =~= registers@.skip(4));
    let valid: usize = (read_be32(d1) % 0x1_0000) as usize;
    if valid == 0 || valid > limit {
        return Ok(Vec::new());
    }
    let ghost before = session.log();
    let addressed = session.set_address(buffer);
    proof {
        lemma_part(
            start,
            whole,
            before,
            stub::set_address(settings, buffer),
            session.log(),
            shown(addressed),
        );
    }
    if let Err(error) = addressed {
        return Err(Os9Error::Stub { step: addressing, error });
    }
    let ghost before = session.log();
    let bytes = session.read(valid);
    proof {
        lemma_part(
            start,
            whole,
            before,
            stub::read(settings, valid as nat),
            session.log(),
            shown(bytes),
        );
    }
    match bytes {
        Ok(bytes) => Ok(bytes),
        Err(error) => Err(Os9Error::Stub { step: fetching, error }),
    }
}

/// Closes the open path and says how the whole operation went.
fn close<T: Transport, A: View>(
    session: &mut Session<T>,
    path: &str,
    trace: bool,
    work: Result<A, Os9Error>,
    closing: &'static str,
) -> (result: Result<A, Os9Error>)
    ensures
        old(session).carried_out(
            final(session),
            service::close(old(session).settings(), path@, trace, shown(work), closing@),
            shown(result),
        ),
{
    let ghost start = session.log();
    let ghost settings = session.settings();
    let ghost whole = service::close(settings, path@, trace, shown(work), closing@);
    proof {
        reveal(service::close);
        lemma_start(start, whole);
    }
    let line: String = call_text("I$Close", path);
    session.os9_trace(trace, line.as_str());
    proof {
        lemma_part(start, whole, start, service::os9_trace(trace, line@), session.log(), ());
    }
    let ghost before = session.log();
    let closed = session.os9_call(OS9_I_CLOSE, 0);
    proof {
        lemma_part(
            start,
            whole,
            before,
            stub::os9_call(settings, OS9_I_CLOSE, 0),
            session.log(),
            shown(closed),
        );
    }
    match work {
        Ok(value) => match closed {
            Ok(_) => Ok(value),
            Err(error) => Err(Os9Error::Stub { step: closing, error }),
        },
        Err(error) => Err(error),
    }
}

/// Reads an open directory to its end.
fn directory_data<T: Transport>(
    session: &mut Session<T>,
    path: &str,
    read_size: usize,
    trace: bool,
    buffer: u32,
) -> (result: Result<Vec<u8>, Os9Error>)
    requires
        read_size <= 0xffff,
    ensures
        old(session).carried_out(
            final(session),
            service::directory_data(
                old(session).settings(),
                path@,
                read_size as nat,
                trace,
                buffer,
                seq![],
            ),
            shown(result),
        ),
{
    let ghost start = session.log();
    let ghost settings = session.settings();
    let ghost whole = service::directory_data(
        settings,
        path@,
        read_size as nat,
        trace,
        buffer,
        seq![],
    );
    let line: String = sized_call_text("I$Read", path, read_size, " bytes requested)");
    let mut data: Vec<u8> = Vec::new();
    proof {
        lemma_start(start, whole);
        assert(data@ =~= seq![]);
    }
    loop
        invariant
            read_size <= 0xffff,
            start == old(session).log(),
            settings == old(session).settings(),
            session.settings() == settings,
            session.transport().script() == old(session).transport().script(),
            line@ == sized_call_line("I$Read"@, path@, read_size as nat, " bytes requested)"@),
            whole == service::directory_data(
                settings,
                path@,
                read_size as nat,
                trace,
                buffer,
                seq![],
            ),
            reaches(
                start,
                whole,
                session.log(),
                service::directory_data(
                    settings,
                    path@,
                    read_size as nat,
                    trace,
                    buffer,
                    data@,
                ),
            ),
        decreases usize::MAX - data@.len(),
    {
        // D0 remains the path number returned by I$Open and A0 remains the
        // buffer established by I$GetStt; D1 alone is set before each read.
        let values: [u32; 1] = [read_size as u32];
        assert(values@ =~= seq![read_size as u32]);
        let ghost before = session.log();
        let at_end = call_with(
            session,
            trace,
            line.as_str(),
            REG_D1,
            values.as_slice(),
            "setting registers for OS-9 directory read",
            OS9_I_READ,
            "reading OS-9 directory",
        );
        proof {
            lemma_part(
                start,
                whole,
                before,
                service::call_with(
                    settings,
                    trace,
                    line@,
                    REG_D1,
                    values@,
                    "setting registers for OS-9 directory read"@,
                    OS9_I_READ,
                    "reading OS-9 directory"@,
                ),
                session.log(),
                shown(at_end),
            );
        }
        match at_end {
            Ok(at_end) => {
                if at_end {
                    return Ok(data);
                }
            },
            Err(error) => {
                return Err(error);
            },
        }
        let ghost before = session.log();
        let more = fetch(
            session,
            buffer,
            read_size,
            "selecting OS-9 directory result registers",
            "reading OS-9 directory result registers",
            "selecting OS-9 directory data buffer",
            "reading OS-9 directory data from Stub",
        );
        proof {
            lemma_part(
                start,
                whole,
                before,
                service::fetch(
                    settings,
                    buffer,
                    read_size as nat,
                    "selecting OS-9 directory result registers"@,
                    "reading OS-9 directory result registers"@,
                    "selecting OS-9 directory data buffer"@,
                    "reading OS-9 directory data from Stub"@,
                ),
                session.log(),
                shown(more),
            );
        }
        match more {
            Ok(bytes) => {
                if bytes.len() == 0 {
                    return Ok(data);
                }
                let ghost earlier = data@;
                data.extend_from_slice(bytes.as_slice());
                assert(data@ =~= earlier + bytes@);
                assert(data.len() <= usize::MAX);
            },
            Err(error) => {
                return Err(error);
            },
        }
    }
}

/// Reads the raw contents of an OS-9 directory.
pub fn read_directory<T: Transport>(
    session: &mut Session<T>,
    path: &str,
    read_size: usize,
    trace: bool,
) -> (result: Result<Vec<u8>, Os9Error>)
    ensures
        old(session).carried_out(
            final(session),
            service::read_directory(old(session).settings(), path@, read_size as nat, trace),
            shown(result),
        ),
{
    let ghost start = session.log();
    let ghost settings = session.settings();
    let ghost whole = service::read_directory(settings, path@, read_size as nat, trace);
    proof {
        lemma_start(start, whole);
    }
    if read_size == 0 || read_size > 0xffff || read_size % OS9_DIRECTORY_ENTRY_SIZE != 0 {
        return Err(Os9Error::InvalidReadSize);
    }
    if has_nul(path) {
        return Err(Os9Error::NulInPath { role: "directory path" });
    }
    let path_buffer = place_path(
        session,
        path,
        "path",
        "allocating OS-9 path buffer",
        "writing OS-9 directory path",
    );
    proof {
        lemma_part(
            start,
            whole,
            start,
            service::place_path(settings, path@, service::directory_steps()),
            session.log(),
            shown(path_buffer),
        );
    }
    let path_buffer: u32 = match path_buffer {
        Ok(path_buffer) => path_buffer,
        Err(error) => {
            return Err(error);
        },
    };
    let mut line: String = call_text("I$Open", path);
    line.append(" (directory)");
    let values: [u32; 2] = [OS9_DIRECTORY_READ, path_buffer];
    assert(values@ =~= seq![OS9_DIRECTORY_READ, path_buffer]);
    let ghost before = session.log();
    let refused = call_with(
        session,
        trace,
        line.as_str(),
        REG_D0 | REG_A0,
        values.as_slice(),
        "setting registers for OS-9 directory open",
        OS9_I_OPEN,
        "opening OS-9 directory",
    );
    proof {
        lemma_part(
            start,
            whole,
            before,
            service::call_with(
                settings,
                trace,
                line@,
                REG_D0 | REG_A0,
                values@,
                "setting registers for OS-9 directory open"@,
                OS9_I_OPEN,
                "opening OS-9 directory"@,
            ),
            session.log(),
            shown(refused),
        );
    }
    match refused {
        Ok(refused) => {
            if refused {
                return Err(Os9Error::OpenDirectory { path: path.to_owned() });
            }
        },
        Err(error) => {
            return Err(error);
        },
    }
    let ghost before = session.log();
    let buffer = session.allocate_buffer(read_size);
    proof {
        lemma_part(
            start,
            whole,
            before,
            stub::allocate_buffer(settings, read_size as nat),
            session.log(),
            shown(buffer),
        );
    }
    let buffer: u32 = match buffer {
        Ok((_, buffer)) => buffer,
        Err(error) => {
            return Err(Os9Error::Stub { step: "allocating OS-9 directory data buffer", error });
        },
    };
    let ghost before = session.log();
    let data = read_open_directory(session, path, read_size, trace, buffer);
    proof {
        lemma_last(
            start,
            whole,
            before,
            service::read_open_directory(settings, path@, read_size as nat, trace, buffer),
            session.log(),
            Dialogue::Over(shown(data)),
        );
    }
    data
}

/// Queries the status of an open directory, reads it and closes it.
fn read_open_directory<T: Transport>(
    session: &mut Session<T>,
    path: &str,
    read_size: usize,
    trace: bool,
    buffer: u32,
) -> (result: Result<Vec<u8>, Os9Error>)
    requires
        read_size <= 0xffff,
    ensures
        old(session).carried_out(
            final(session),
            service::read_open_directory(
                old(session).settings(),
                path@,
                read_size as nat,
                trace,
                buffer,
            ),
            shown(result),
        ),
{
    let ghost start = session.log();
    let ghost settings = session.settings();
    let ghost whole = service::read_open_directory(
        settings,
        path@,
        read_size as nat,
        trace,
        buffer,
    );
    proof {
        reveal(service::read_open_directory);
        lemma_start(start, whole);
    }
    // Besides confirming that this is a directory path, the status query makes
    // the CD-i OS-9 file manager initialise its directory state.
    let line: String = call_text("I$GetStt", path);
    let values: [u32; 2] = [0, buffer];
    assert(values@ =~= seq![0, buffer]);
    let refused = call_with(
        session,
        trace,
        line.as_str(),
        REG_D1 | REG_A0,
        values.as_slice(),
        "setting registers for OS-9 directory status",
        OS9_I_GETSTT,
        "querying OS-9 directory status",
    );
    proof {
        lemma_part(
            start,
            whole,
            start,
            service::call_with(
                settings,
                trace,
                line@,
                REG_D1 | REG_A0,
                values@,
                "setting registers for OS-9 directory status"@,
                OS9_I_GETSTT,
                "querying OS-9 directory status"@,
            ),
            session.log(),
            shown(refused),
        );
    }
    match refused {
        Ok(refused) => {
            if refused {
                return Err(Os9Error::DirectoryStatus { path: path.to_owned() });
            }
        },
        Err(error) => {
            return Err(error);
        },
    }
    // Reading the first status byte also advances the Stub's selected
    // register/status cursor.
    let ghost before = session.log();
    let status = session.read(1);
    proof {
        lemma_part(start, whole, before, stub::read(settings, 1), session.log(), shown(status));
    }
    if let Err(error) = status {
        return Err(Os9Error::Stub { step: "reading OS-9 directory status byte", error });
    }
    let ghost before = session.log();
    let work = directory_data(session, path, read_size, trace, buffer);
    let ghost outcome = shown(work);
    proof {
        lemma_part(
            start,
            whole,
            before,
            service::directory_data(settings, path@, read_size as nat, trace, buffer, seq![]),
            session.log(),
            outcome,
        );
    }
    let ghost before = session.log();
    let data = close(session, path, trace, work, "closing OS-9 directory");
    proof {
        lemma_last(
            start,
            whole,
            before,
            service::close(settings, path@, trace, outcome, "closing OS-9 directory"@),
            session.log(),
            Dialogue::Over(shown(data)),
        );
    }
    data
}

/// Reads a directory of the player and shows it.
pub fn list_directory<T: Transport>(
    session: &mut Session<T>,
    path: &str,
    read_size: usize,
    trace: bool,
) -> (result: Result<Listing, Os9Error>)
    ensures
        old(session).carried_out(
            final(session),
            service::list_directory(old(session).settings(), path@, read_size as nat, trace),
            shown(result),
        ),
{
    let ghost start = session.log();
    let ghost settings = session.settings();
    let ghost whole = service::list_directory(settings, path@, read_size as nat, trace);
    proof {
        lemma_start(start, whole);
    }
    let read = read_directory(session, path, read_size, trace);
    proof {
        lemma_part(
            start,
            whole,
            start,
            service::read_directory(settings, path@, read_size as nat, trace),
            session.log(),
            shown(read),
        );
    }
    match read {
        Ok(data) => Ok(directory_listing(data.as_slice())),
        Err(error) => Err(error),
    }
}

/// Reads an open file from its beginning to its end.
fn read_open_file<T: Transport>(
    session: &mut Session<T>,
    path: &str,
    chunk_size: usize,
    trace: bool,
    buffer: u32,
) -> (result: Result<Vec<u8>, Os9Error>)
    requires
        chunk_size <= 0xffff,
    ensures
        old(session).carried_out(
            final(session),
            service::read_open_file(
                old(session).settings(),
                path@,
                chunk_size as nat,
                trace,
                buffer,
            ),
            shown(result),
        ),
{
    let ghost start = session.log();
    let ghost settings = session.settings();
    let ghost whole = service::read_open_file(settings, path@, chunk_size as nat, trace, buffer);
    proof {
        reveal(service::read_open_file);
        lemma_start(start, whole);
    }
    // A0 points to the file data buffer for the first I$Read. It remains there
    // for later reads, so only D1 needs updating in the loop.
    let values: [u32; 2] = [chunk_size as u32, buffer];
    assert(values@ =~= seq![chunk_size as u32, buffer]);
    let set = session.set_registers(REG_D1 | REG_A0, values.as_slice());
    proof {
        lemma_part(
            start,
            whole,
            start,
            stub::set_registers(settings, REG_D1 | REG_A0, values@),
            session.log(),
            shown(set),
        );
    }
    if let Err(error) = set {
        return Err(Os9Error::Stub { step: "setting registers for OS-9 file read", error });
    }
    let line: String = sized_call_text("I$Read", path, chunk_size, " bytes requested)");
    let next: [u32; 1] = [chunk_size as u32];
    assert(next@ =~= seq![chunk_size as u32]);
    let mut data: Vec<u8> = Vec::new();
    assert(data@ =~= seq![]);
    loop
        invariant
            start == old(session).log(),
            settings == old(session).settings(),
            session.settings() == settings,
            session.transport().script() == old(session).transport().script(),
            line@ == sized_call_line("I$Read"@, path@, chunk_size as nat, " bytes requested)"@),
            next@ == seq![chunk_size as u32],
            whole == service::read_open_file(settings, path@, chunk_size as nat, trace, buffer),
            reaches(
                start,
                whole,
                session.log(),
                service::file_data(settings, path@, chunk_size as nat, trace, buffer, data@),
            ),
        decreases usize::MAX - data@.len(),
    {
        let ghost before = session.log();
        let at_end = plain_call(
            session,
            trace,
            line.as_str(),
            OS9_I_READ,
            "reading OS-9 source file",
        );
        proof {
            lemma_part(
                start,
                whole,
                before,
                service::plain_call(
                    settings,
                    trace,
                    line@,
                    OS9_I_READ,
                    "reading OS-9 source file"@,
                ),
                session.log(),
                shown(at_end),
            );
        }
        match at_end {
            Ok(at_end) => {
                if at_end {
                    return Ok(data);
                }
            },
            Err(error) => {
                return Err(error);
            },
        }
        let ghost before = session.log();
        let more = fetch(
            session,
            buffer,
            chunk_size,
            "selecting OS-9 file result registers",
            "reading OS-9 file result registers",
            "selecting OS-9 file data buffer",
            "reading OS-9 file data from Stub",
        );
        proof {
            lemma_part(
                start,
                whole,
                before,
                service::fetch(
                    settings,
                    buffer,
                    chunk_size as nat,
                    "selecting OS-9 file result registers"@,
                    "reading OS-9 file result registers"@,
                    "selecting OS-9 file data buffer"@,
                    "reading OS-9 file data from Stub"@,
                ),
                session.log(),
                shown(more),
            );
        }
        let bytes: Vec<u8> = match more {
            Ok(bytes) => bytes,
            Err(error) => {
                return Err(error);
            },
        };
        if bytes.len() == 0 {
            return Ok(data);
        }
        let ghost earlier = data@;
        data.extend_from_slice(bytes.as_slice());
        assert(data@ =~= earlier + bytes@);
        assert(data.len() <= usize::MAX);
        let ghost before = session.log();
        let set = session.set_registers(REG_D1, next.as_slice());
        proof {
            lemma_part(
                start,
                whole,
                before,
                stub::set_registers(settings, REG_D1, next@),
                session.log(),
                shown(set),
            );
        }
        if let Err(error) = set {
            return Err(
                Os9Error::Stub { step: "setting registers for next OS-9 file read", error },
            );
        }
    }
}

/// Copies an OS-9 file from the player.
pub fn get_file<T: Transport>(
    session: &mut Session<T>,
    remote_path: &str,
    chunk_size: usize,
    trace: bool,
) -> (result: Result<Vec<u8>, Os9Error>)
    ensures
        old(session).carried_out(
            final(session),
            service::get_file(old(session).settings(), remote_path@, chunk_size as nat, trace),
            shown(result),
        ),
{
    let ghost start = session.log();
    let ghost settings = session.settings();
    let ghost whole = service::get_file(settings, remote_path@, chunk_size as nat, trace);
    proof {
        lemma_start(start, whole);
    }
    if chunk_size == 0 || chunk_size > 0xffff {
        return Err(Os9Error::InvalidChunkSize);
    }
    if has_nul(remote_path) {
        return Err(Os9Error::NulInPath { role: "source path" });
    }
    let path_buffer = place_path(
        session,
        remote_path,
        "source-path",
        "allocating OS-9 source-path buffer",
        "writing OS-9 source path",
    );
    proof {
        lemma_part(
            start,
            whole,
            start,
            service::place_path(settings, remote_path@, service::source_steps()),
            session.log(),
            shown(path_buffer),
        );
    }
    let path_buffer: u32 = match path_buffer {
        Ok(path_buffer) => path_buffer,
        Err(error) => {
            return Err(error);
        },
    };
    let mut line: String = call_text("I$Open", remote_path);
    line.append(" (read)");
    let values: [u32; 2] = [OS9_FILE_READ, path_buffer];
    assert(values@ =~= seq![OS9_FILE_READ, path_buffer]);
    let ghost before = session.log();
    let refused = call_with(
        session,
        trace,
        line.as_str(),
        REG_D0 | REG_A0,
        values.as_slice(),
        "setting registers for OS-9 file open",
        OS9_I_OPEN,
        "opening OS-9 source file",
    );
    proof {
        lemma_part(
            start,
            whole,
            before,
            service::call_with(
                settings,
                trace,
                line@,
                REG_D0 | REG_A0,
                values@,
                "setting registers for OS-9 file open"@,
                OS9_I_OPEN,
                "opening OS-9 source file"@,
            ),
            session.log(),
            shown(refused),
        );
    }
    match refused {
        Ok(refused) => {
            if refused {
                return Err(Os9Error::OpenFile { path: remote_path.to_owned() });
            }
        },
        Err(error) => {
            return Err(error);
        },
    }
    let ghost before = session.log();
    let buffer = session.allocate_buffer(chunk_size);
    proof {
        lemma_part(
            start,
            whole,
            before,
            stub::allocate_buffer(settings, chunk_size as nat),
            session.log(),
            shown(buffer),
        );
    }
    let buffer: u32 = match buffer {
        Ok((_, buffer)) => buffer,
        Err(error) => {
            return Err(Os9Error::Stub { step: "allocating OS-9 file data buffer", error });
        },
    };
    let ghost before = session.log();
    let work = read_open_file(session, remote_path, chunk_size, trace, buffer);
    let ghost outcome = shown(work);
    proof {
        lemma_part(
            start,
            whole,
            before,
            service::read_open_file(settings, remote_path@, chunk_size as nat, trace, buffer),
            session.log(),
            outcome,
        );
    }
    let ghost before = session.log();
    let data = close(session, remote_path, trace, work, "closing OS-9 source file");
    proof {
        lemma_last(
            start,
            whole,
            before,
            service::close(settings, remote_path@, trace, outcome, "closing OS-9 source file"@),
            session.log(),
            Dialogue::Over(shown(data)),
        );
    }
    data
}

/// Reads the error code of a failed call.
fn error_code<T: Transport>(
    session: &mut Session<T>,
    selecting: &'static str,
    reading: &'static str,
) -> (result: Result<u32, Os9Error>)
    ensures
        old(session).carried_out(
            final(session),
            service::error_code(old(session).settings(), selecting@, reading@),
            shown(result),
        ),
{
    let ghost start = session.log();
    let ghost settings = session.settings();
    let ghost whole = service::error_code(settings, selecting@, reading@);
    proof {
        reveal(service::error_code);
        lemma_start(start, whole);
    }
    let selected = session.select_registers(REG_D1);
    proof {
        lemma_part(
            start,
            whole,
            start,
            stub::select_registers(settings, REG_D1),
            session.log(),
            shown(selected),
        );
    }
    if let Err(error) = selected {
        return Err(Os9Error::Stub { step: selecting, error });
    }
    let ghost before = session.log();
    let code = session.read(4);
    proof {
        lemma_part(start, whole, before, stub::read(settings, 4), session.log(), shown(code));
    }
    match code {
        Ok(code) => Ok(read_be32(code.as_slice())),
        Err(error) => Err(Os9Error::Stub { step: reading, error }),
    }
}

/// Writes one chunk to the open file.
fn put_chunk<T: Transport>(
    session: &mut Session<T>,
    path: &str,
    trace: bool,
    buffer: u32,
    chunk: &[u8],
) -> (result: Result<(), Os9Error>)
    requires
        chunk@.len() <= 0xffff,
    ensures
        old(session).carried_out(
            final(session),
            service::put_chunk(old(session).settings(), path@, trace, buffer, chunk@),
            shown(result),
        ),
{
    let ghost start = session.log();
    let ghost settings = session.settings();
    let ghost whole = service::put_chunk(settings, path@, trace, buffer, chunk@);
    proof {
        reveal(service::put_chunk);
        lemma_start(start, whole);
    }
    let values: [u32; 2] = [chunk.len() as u32, buffer];
    assert(values@ =~= seq![chunk@.len() as u32, buffer]);
    let set = session.set_registers(REG_D1 | REG_A0, values.as_slice());
    proof {
        lemma_part(
            start,
            whole,
            start,
            stub::set_registers(settings, REG_D1 | REG_A0, values@),
            session.log(),
            shown(set),
        );
    }
    if let Err(error) = set {
        return Err(Os9Error::Stub { step: "setting registers for OS-9 file write", error });
    }
    let ghost before = session.log();
    let addressed = session.set_address(buffer);
    proof {
        lemma_part(
            start,
            whole,
            before,
            stub::set_address(settings, buffer),
            session.log(),
            shown(addressed),
        );
    }
    if let Err(error) = addressed {
        return Err(Os9Error::Stub { step: "selecting OS-9 file write buffer", error });
    }
    let ghost before = session.log();
    let copied = session.write(chunk);
    proof {
        lemma_part(
            start,
            whole,
            before,
            stub::write(settings, chunk@),
            session.log(),
            shown(copied),
        );
    }
    if let Err(error) = copied {
        return Err(Os9Error::Stub { step: "copying host file data to Stub buffer", error });
    }
    let line: String = sized_call_text("I$Write", path, chunk.len(), " bytes)");
    let ghost before = session.log();
    let refused = plain_call(
        session,
        trace,
        line.as_str(),
        OS9_I_WRITE,
        "writing OS-9 destination file",
    );
    proof {
        lemma_part(
            start,
            whole,
            before,
            service::plain_call(
                settings,
                trace,
                line@,
                OS9_I_WRITE,
                "writing OS-9 destination file"@,
            ),
            session.log(),
            shown(refused),
        );
    }
    match refused {
        Ok(refused) => {
            if !refused {
                return Ok(());
            }
        },
        Err(error) => {
            return Err(error);
        },
    }
    let ghost before = session.log();
    let code = error_code(
        session,
        "selecting OS-9 write error register",
        "reading OS-9 write error register",
    );
    proof {
        lemma_part(
            start,
            whole,
            before,
            service::error_code(
                settings,
                "selecting OS-9 write error register"@,
                "reading OS-9 write error register"@,
            ),
            session.log(),
            shown(code),
        );
    }
    match code {
        Ok(code) => Err(Os9Error::Write { path: path.to_owned(), code }),
        Err(error) => Err(error),
    }
}

/// Writes data to the open file, in chunks.
fn put_chunks<T: Transport>(
    session: &mut Session<T>,
    path: &str,
    chunk_size: usize,
    trace: bool,
    buffer: u32,
    data: &[u8],
) -> (result: Result<(), Os9Error>)
    requires
        1 <= chunk_size <= 0xffff,
    ensures
        old(session).carried_out(
            final(session),
            service::put_chunks(
                old(session).settings(),
                path@,
                chunk_size as nat,
                trace,
                buffer,
                data@,
            ),
            shown(result),
        ),
{
    let ghost start = session.log();
    let ghost settings = session.settings();
    let ghost whole = service::put_chunks(
        settings,
        path@,
        chunk_size as nat,
        trace,
        buffer,
        data@,
    );
    let mut done: usize = 0;
    proof {
        lemma_start(start, whole);
        assert(data@.skip(0) =~= data@);
    }
    while done < data.len()
        invariant
            1 <= chunk_size <= 0xffff,
            done <= data@.len(),
            start == old(session).log(),
            settings == old(session).settings(),
            session.settings() == settings,
            session.transport().script() == old(session).transport().script(),
            whole == service::put_chunks(
                settings,
                path@,
                chunk_size as nat,
                trace,
                buffer,
                data@,
            ),
            reaches(
                start,
                whole,
                session.log(),
                service::put_chunks(
                    settings,
                    path@,
                    chunk_size as nat,
                    trace,
                    buffer,
                    data@.skip(done as int),
                ),
            ),
        decreases data@.len() - done,
    {
        let left: usize = data.len() - done;
        let length: usize = if left < chunk_size { left } else { chunk_size };
        let chunk = slice_subrange(data, done, done + length);
        let ghost rest = data@.skip(done as int);
        assert(chunk@ =~= rest.take(length as int));
        let ghost before = session.log();
        let put = put_chunk(session, path, trace, buffer, chunk);
        proof {
            lemma_part(
                start,
                whole,
                before,
                service::put_chunk(settings, path@, trace, buffer, chunk@),
                session.log(),
                shown(put),
            );
        }
        if let Err(error) = put {
            return Err(error);
        }
        assert(rest.skip(length as int) =~= data@.skip(done + length));
        done = done + length;
    }
    Ok(())
}

/// Copies host data to a new OS-9 file on the player.
pub fn put_file<T: Transport>(
    session: &mut Session<T>,
    local_data: &[u8],
    remote_path: &str,
    chunk_size: usize,
    trace: bool,
) -> (result: Result<(), Os9Error>)
    ensures
        old(session).carried_out(
            final(session),
            service::put_file(
                old(session).settings(),
                local_data@,
                remote_path@,
                chunk_size as nat,
                trace,
            ),
            shown(result),
        ),
{
    let ghost start = session.log();
    let ghost settings = session.settings();
    let ghost whole = service::put_file(
        settings,
        local_data@,
        remote_path@,
        chunk_size as nat,
        trace,
    );
    proof {
        lemma_start(start, whole);
    }
    if chunk_size == 0 || chunk_size > 0xffff {
        return Err(Os9Error::InvalidChunkSize);
    }
    if has_nul(remote_path) {
        return Err(Os9Error::NulInPath { role: "destination path" });
    }
    let path_buffer = place_path(
        session,
        remote_path,
        "destination-path",
        "allocating OS-9 destination-path buffer",
        "writing OS-9 destination path",
    );
    proof {
        lemma_part(
            start,
            whole,
            start,
            service::place_path(settings, remote_path@, service::destination_steps()),
            session.log(),
            shown(path_buffer),
        );
    }
    let path_buffer: u32 = match path_buffer {
        Ok(path_buffer) => path_buffer,
        Err(error) => {
            return Err(error);
        },
    };
    // I$Create takes D0 access mode, D1 attributes, and A0 path. Give the
    // Stub's OS-9 process owner read/write permission on the new regular file;
    // otherwise I$Write returns E$FNA (file not accessible).
    let line: String = call_text("I$Create", remote_path);
    let values: [u32; 3] = [OS9_FILE_READ_WRITE, OS9_OWNER_READ_WRITE, path_buffer];
    assert(values@ =~= seq![OS9_FILE_READ_WRITE, OS9_OWNER_READ_WRITE, path_buffer]);
    let ghost before = session.log();
    let refused = call_with(
        session,
        trace,
        line.as_str(),
        REG_D0 | REG_D1 | REG_A0,
        values.as_slice(),
        "setting registers for OS-9 file create",
        OS9_I_CREATE,
        "creating OS-9 destination file",
    );
    proof {
        lemma_part(
            start,
            whole,
            before,
            service::call_with(
                settings,
                trace,
                line@,
                REG_D0 | REG_D1 | REG_A0,
                values@,
                "setting registers for OS-9 file create"@,
                OS9_I_CREATE,
                "creating OS-9 destination file"@,
            ),
            session.log(),
            shown(refused),
        );
    }
    match refused {
        Ok(refused) => {
            if refused {
                return Err(Os9Error::Create { path: remote_path.to_owned() });
            }
        },
        Err(error) => {
            return Err(error);
        },
    }
    let ghost before = session.log();
    let buffer = session.allocate_buffer(chunk_size);
    proof {
        lemma_part(
            start,
            whole,
            before,
            stub::allocate_buffer(settings, chunk_size as nat),
            session.log(),
            shown(buffer),
        );
    }
    let buffer: u32 = match buffer {
        Ok((_, buffer)) => buffer,
        Err(error) => {
            return Err(Os9Error::Stub { step: "allocating OS-9 file write buffer", error });
        },
    };
    let ghost before = session.log();
    let work = put_chunks(session, remote_path, chunk_size, trace, buffer, local_data);
    let ghost outcome = shown(work);
    proof {
        lemma_part(
            start,
            whole,
            before,
            service::put_chunks(
                settings,
                remote_path@,
                chunk_size as nat,
                trace,
                buffer,
                local_data@,
            ),
            session.log(),
            outcome,
        );
    }
    let ghost before = session.log();
    let closed = close(session, remote_path, trace, work, "closing OS-9 destination file");
    proof {
        lemma_last(
            start,
            whole,
            before,
            service::close(
                settings,
                remote_path@,
                trace,
                outcome,
                "closing OS-9 destination file"@,
            ),
            session.log(),
            Dialogue::Over(shown(closed)),
        );
    }
    closed
}

/// Permanently deletes an OS-9 file on the player.
pub fn delete_file<T: Transport>(
    session: &mut Session<T>,
    remote_path: &str,
    trace: bool,
) -> (result: Result<(), Os9Error>)
    ensures
        old(session).carried_out(
            final(session),
            service::delete_file(old(session).settings(), remote_path@, trace),
            shown(result),
        ),
{
    let ghost start = session.log();
    let ghost settings = session.settings();
    let ghost whole = service::delete_file(settings, remote_path@, trace);
    proof {
        lemma_start(start, whole);
    }
    let absolute: bool = remote_path.unicode_len() > 0 && remote_path.get_char(0) == '/';
    if !absolute {
        return Err(Os9Error::RelativePath);
    }
    if has_nul(remote_path) {
        return Err(Os9Error::NulInPath { role: "path to delete" });
    }
    let path_buffer = place_path(
        session,
        remote_path,
        "delete-path",
        "allocating OS-9 delete-path buffer",
        "writing OS-9 delete path",
    );
    proof {
        lemma_part(
            start,
            whole,
            start,
            service::place_path(settings, remote_path@, service::deletion_steps()),
            session.log(),
            shown(path_buffer),
        );
    }
    let path_buffer: u32 = match path_buffer {
        Ok(path_buffer) => path_buffer,
        Err(error) => {
            return Err(error);
        },
    };
    // OS-9 ignores D0's access mode when A0 contains an absolute pathlist, but
    // supplying update access also matches the documented I$Delete call.
    let line: String = call_text("I$Delete", remote_path);
    let values: [u32; 2] = [OS9_FILE_READ_WRITE, path_buffer];
    assert(values@ =~= seq![OS9_FILE_READ_WRITE, path_buffer]);
    let ghost before = session.log();
    let refused = call_with(
        session,
        trace,
        line.as_str(),
        REG_D0 | REG_A0,
        values.as_slice(),
        "setting registers for OS-9 file delete",
        OS9_I_DELETE,
        "deleting OS-9 file",
    );
    proof {
        lemma_part(
            start,
            whole,
            before,
            service::call_with(
                settings,
                trace,
                line@,
                REG_D0 | REG_A0,
                values@,
                "setting registers for OS-9 file delete"@,
                OS9_I_DELETE,
                "deleting OS-9 file"@,
            ),
            session.log(),
            shown(refused),
        );
    }
    match refused {
        Ok(refused) => {
            if !refused {
                return Ok(());
            }
        },
        Err(error) => {
            return Err(error);
        },
    }
    let ghost before = session.log();
    let code = error_code(
        session,
        "selecting OS-9 delete error register",
        "reading OS-9 delete error register",
    );
    proof {
        lemma_part(
            start,
            whole,
            before,
            service::error_code(
                settings,
                "selecting OS-9 delete error register"@,
                "reading OS-9 delete error register"@,
            ),
            session.log(),
            shown(code),
        );
    }
    match code {
        Ok(code) => Err(Os9Error::Delete { path: remote_path.to_owned(), code }),
        Err(error) => Err(error),
    }
}

} // verus!
