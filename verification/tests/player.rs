use std::cell::RefCell;
use std::collections::{BTreeMap, VecDeque};
use std::rc::Rc;

use cdi_serial::mount::Mount;
use cdi_serial::os9::{
    delete_file, get_file, list_directory, put_file, read_directory, Os9Error,
};
use cdi_serial::volume::Refusal;
use cdi_serial::{
    request, Error, IoError, IoErrorKind, Session, Transport, ACK, ADDRESS, BUFFER, DLE, EXECUTE,
    NAK, OS9CALL, READ, REGISTERS, REG_CARRY, SOH, WRITE,
};

/// What the next data of the host is about.
enum Area {
    Memory(u32),
    Registers(u32),
}

/// A player with a full Stub, as far as its files are concerned.
struct Player {
    input: Vec<u8>,
    output: VecDeque<u8>,
    area: Area,
    memory: BTreeMap<u32, u8>,
    registers: [u32; 32],
    next_buffer: u32,
    directories: BTreeMap<String, Vec<u8>>,
    files: BTreeMap<String, Vec<u8>>,
    open: Option<(String, usize)>,
    calls: Vec<u16>,
    requests: usize,
    rejections: usize,
    buffer_limit: u16,
    refuse_call: Option<u16>,
    /// Reads that are still served, and reads that are rejected after them.
    bad_reads: Option<(usize, usize)>,
    notes: Vec<String>,
    gone: bool,
}

/// The number of every path that is opened.
const PATH_NUMBER: u32 = 5;

impl Player {
    fn new() -> Self {
        Self {
            input: Vec::new(),
            output: VecDeque::new(),
            area: Area::Memory(0xdead),
            memory: BTreeMap::new(),
            registers: [0; 32],
            next_buffer: 0x00d0_0000,
            directories: BTreeMap::new(),
            files: BTreeMap::new(),
            open: None,
            calls: Vec::new(),
            requests: 0,
            rejections: 0,
            buffer_limit: 0xffff,
            refuse_call: None,
            bad_reads: None,
            notes: Vec::new(),
            gone: false,
        }
    }

    fn respond(&mut self, kind: u8, body: &[u8]) {
        let mut frame = vec![DLE, kind];
        frame.extend_from_slice(body);
        frame.push(frame.iter().fold(0, |check, byte| check ^ byte));
        self.output.extend(frame);
    }

    fn string_at(&self, address: u32) -> String {
        let mut bytes = Vec::new();
        let mut place = address;
        while self.memory[&place] != 0 {
            bytes.push(self.memory[&place]);
            place += 1;
        }
        String::from_utf8(bytes).unwrap()
    }

    fn store(&mut self, data: &[u8]) {
        match self.area {
            Area::Memory(address) => {
                for (index, byte) in data.iter().enumerate() {
                    self.memory.insert(address + index as u32, *byte);
                }
                self.area = Area::Memory(address + data.len() as u32);
            }
            Area::Registers(mask) => {
                let mut values = data.chunks_exact(4);
                for register in 0..32 {
                    if mask >> register & 1 == 1 {
                        let value = values.next().unwrap();
                        self.registers[register] =
                            u32::from_be_bytes([value[0], value[1], value[2], value[3]]);
                    }
                }
            }
        }
    }

    fn load(&mut self, size: usize) -> Vec<u8> {
        match self.area {
            Area::Memory(address) => {
                self.area = Area::Memory(address + size as u32);
                (0..size as u32)
                    .map(|index| *self.memory.get(&(address + index)).unwrap_or(&0))
                    .collect()
            }
            Area::Registers(mask) => {
                let mut data = Vec::new();
                for register in 0..32 {
                    if mask >> register & 1 == 1 {
                        data.extend_from_slice(&self.registers[register].to_be_bytes());
                    }
                }
                data.truncate(size);
                data
            }
        }
    }

    fn contents(&self, path: &str) -> Vec<u8> {
        match self.files.get(path) {
            Some(data) => data.clone(),
            None => self.directories[path].clone(),
        }
    }

    /// Carries out an OS-9 call and says whether it failed.
    fn call(&mut self, call: u16) -> bool {
        self.calls.push(call);
        if self.refuse_call == Some(call) {
            self.registers[1] = 0xd7;
            return true;
        }
        let path_or_buffer = self.registers[8];
        if matches!(call, 0x89 | 0x8a | 0x8d | 0x8f) {
            assert_eq!(self.registers[0], PATH_NUMBER);
        }
        match call {
            0x84 => {
                let path = self.string_at(path_or_buffer);
                let directory = self.registers[0] & 0x80 != 0;
                let known = if directory {
                    self.directories.contains_key(&path)
                } else {
                    self.files.contains_key(&path)
                };
                if known {
                    self.open = Some((path, 0));
                    self.registers[0] = PATH_NUMBER;
                }
                !known
            }
            0x83 => {
                let path = self.string_at(path_or_buffer);
                if self.files.contains_key(&path) {
                    return true;
                }
                self.files.insert(path.clone(), Vec::new());
                self.open = Some((path, 0));
                self.registers[0] = PATH_NUMBER;
                false
            }
            0x87 => {
                let path = self.string_at(path_or_buffer);
                self.registers[1] = 0xd8;
                self.files.remove(&path).is_none()
            }
            0x89 => {
                let (path, position) = self.open.clone().unwrap();
                let data = self.contents(&path);
                let count = (self.registers[1] as usize).min(data.len() - position);
                if count == 0 {
                    self.registers[1] = 0xd3;
                    return true;
                }
                for index in 0..count {
                    self.memory
                        .insert(path_or_buffer + index as u32, data[position + index]);
                }
                self.registers[1] = 0xabcd_0000 | count as u32;
                self.open = Some((path, position + count));
                false
            }
            0x8a => {
                let (path, position) = self.open.clone().unwrap();
                let count = self.registers[1];
                for index in 0..count {
                    let byte = self.memory[&(path_or_buffer + index)];
                    self.files.get_mut(&path).unwrap().push(byte);
                }
                self.open = Some((path, position + count as usize));
                false
            }
            0x8d => false,
            0x8f => {
                self.open = None;
                false
            }
            _ => true,
        }
    }

    /// Serves the first request of the input, if all of it is there.
    fn serve(&mut self) -> bool {
        while !self.input.is_empty() && self.input[0] != SOH {
            self.input.remove(0);
        }
        if self.input.len() < 2 {
            return false;
        }
        let body = match self.input[1] {
            ADDRESS | REGISTERS | EXECUTE => 4,
            WRITE => {
                if self.input.len() < 4 {
                    return false;
                }
                2 + usize::from(u16::from_be_bytes([self.input[2], self.input[3]]))
            }
            READ | BUFFER => 2,
            OS9CALL => 6,
            _ => 0,
        };
        if self.input.len() < body + 3 {
            return false;
        }
        let frame: Vec<u8> = self.input.drain(..body + 3).collect();
        assert_eq!(frame.iter().fold(0, |check, byte| check ^ byte), 0);
        if self.rejections > 0 {
            self.rejections -= 1;
            self.output.push_back(NAK);
            return true;
        }
        if frame[1] == READ {
            match self.bad_reads {
                Some((0, 0)) | None => {}
                Some((0, bad)) => {
                    self.bad_reads = Some((0, bad - 1));
                    self.output.push_back(NAK);
                    return true;
                }
                Some((good, bad)) => self.bad_reads = Some((good - 1, bad)),
            }
        }
        self.requests += 1;
        self.output.push_back(ACK);
        let word = |at: usize| {
            u32::from_be_bytes([frame[at], frame[at + 1], frame[at + 2], frame[at + 3]])
        };
        match frame[1] {
            ADDRESS => self.area = Area::Memory(word(2)),
            REGISTERS => self.area = Area::Registers(word(2)),
            WRITE => self.store(&frame[4..4 + body - 2]),
            READ => {
                let size = u16::from_be_bytes([frame[2], frame[3]]);
                let mut response = size.to_be_bytes().to_vec();
                response.extend(self.load(usize::from(size)));
                self.respond(READ, &response);
            }
            BUFFER => {
                let size = u16::from_be_bytes([frame[2], frame[3]]).min(self.buffer_limit);
                let address = self.next_buffer;
                self.next_buffer += u32::from(size);
                self.area = Area::Memory(address);
                let mut response = size.to_be_bytes().to_vec();
                response.extend_from_slice(&address.to_be_bytes());
                self.respond(BUFFER, &response);
            }
            OS9CALL => {
                let failed = self.call(u16::from_be_bytes([frame[2], frame[3]]));
                let mask = if failed { REG_CARRY | 2 } else { 3 };
                self.respond(OS9CALL, &mask.to_be_bytes());
            }
            _ => {}
        }
        true
    }
}

impl Transport for Player {
    fn write(&mut self, bytes: &[u8]) -> Result<usize, IoError> {
        self.input.extend_from_slice(bytes);
        while self.serve() {}
        Ok(bytes.len())
    }

    fn read(&mut self, room: usize) -> Result<Vec<u8>, IoError> {
        if self.gone {
            return Err(IoError::new(IoErrorKind::TimedOut, "timed out"));
        }
        let count = room.min(self.output.len());
        Ok(self.output.drain(..count).collect())
    }

    fn flush(&mut self) -> Result<(), IoError> {
        Ok(())
    }

    fn pause(&mut self, _nanoseconds: u64) {}

    fn note(&mut self, line: &str) {
        self.notes.push(line.to_owned());
    }
}

/// A player that the test can look at while a session talks to it.
struct Shared(Rc<RefCell<Player>>);

impl Transport for Shared {
    fn write(&mut self, bytes: &[u8]) -> Result<usize, IoError> {
        self.0.borrow_mut().write(bytes)
    }

    fn read(&mut self, room: usize) -> Result<Vec<u8>, IoError> {
        self.0.borrow_mut().read(room)
    }

    fn flush(&mut self) -> Result<(), IoError> {
        self.0.borrow_mut().flush()
    }

    fn pause(&mut self, nanoseconds: u64) {
        self.0.borrow_mut().pause(nanoseconds);
    }

    fn note(&mut self, line: &str) {
        self.0.borrow_mut().note(line);
    }
}

fn disk_entry(name: &str, descriptor: u32) -> Vec<u8> {
    let mut entry = name.as_bytes().to_vec();
    entry.resize(28, 0);
    entry.extend_from_slice(&descriptor.to_be_bytes());
    entry
}

fn disc_record(sector: u32, size: u32, name: &[u8]) -> Vec<u8> {
    let mut record = sector.to_be_bytes().to_vec();
    record.extend_from_slice(&[0; 4]);
    record.extend_from_slice(&size.to_be_bytes());
    record.extend_from_slice(&[9; 6]);
    record.extend_from_slice(&[0; 8]);
    record.push(name.len() as u8);
    record.extend_from_slice(name);
    record
}

fn player_with_files() -> Player {
    let mut player = Player::new();
    player.directories.insert(
        "/nvr".to_owned(),
        [
            disk_entry("settings", 0x10),
            vec![0; 32],
            disk_entry("scores", 0x20),
        ]
        .concat(),
    );
    player.files.insert("/nvr/settings".to_owned(), vec![1, 2, 3]);
    player.files.insert("/nvr/scores".to_owned(), vec![9; 700]);
    player.directories.insert(
        "/cd".to_owned(),
        [
            disc_record(18, 2048, &[0]),
            disc_record(20, 300, b"copyright"),
            disc_record(21, 70_000, b"cdi_app"),
        ]
        .concat(),
    );
    player.files.insert("/cd/copyright".to_owned(), vec![b'c'; 300]);
    player
}

fn payload() -> Vec<u8> {
    (0..1280_u32).map(|index| (index * 73 + 19) as u8).collect()
}

#[test]
fn files_round_trip_through_a_player() {
    for size in [0, 1, 255, 256, 257, 1280] {
        let data = payload()[..size].to_vec();
        let mut session = Session::new(Player::new());
        put_file(&mut session, &data, "/nvr/file", 256, false).unwrap();
        assert_eq!(get_file(&mut session, "/nvr/file", 100, false).unwrap(), data);
        delete_file(&mut session, "/nvr/file", false).unwrap();
        let player = session.into_inner();
        assert!(player.files.is_empty());
        assert!(player.open.is_none());
    }
}

#[test]
fn put_get_delete_round_trip_preserves_bytes() {
    let mut payload = Vec::with_capacity(1_280);
    payload.extend(0_u8..=255);
    payload.extend((0_u8..=255).rev());
    for index in 0..768_u32 {
        payload.push(((index * 73 + 19) & 0xff) as u8);
    }
    let remote_path = "/nvr/it19fa2b3c4d5.bin";
    let mut session = Session::new(player_with_files());
    put_file(&mut session, &payload, remote_path, 256, false).unwrap();
    let round_trip = get_file(&mut session, remote_path, 256, false).unwrap();
    assert_eq!(round_trip, payload, "CD-i round trip changed file contents");
    delete_file(&mut session, remote_path, false).unwrap();
    assert_eq!(session.into_inner().files, player_with_files().files);
}

#[test]
fn files_round_trip_over_a_bad_line() {
    let mut player = Player::new();
    player.rejections = 3;
    let mut session = Session::new(player);
    session.set_tx_pacing(115_200, 9600);
    put_file(&mut session, &payload(), "/nvr/file", 1000, false).unwrap();
    session.transport_mut().rejections = 2;
    assert_eq!(get_file(&mut session, "/nvr/file", 1000, false).unwrap(), payload());
}

#[test]
fn memory_round_trips_through_a_player() {
    let data = payload();
    let mut session = Session::new(Player::new());
    let mut done = Vec::new();
    session
        .download_with_progress(0x8000, &data, 300, |count| done.push(count))
        .unwrap();
    assert_eq!(done, vec![300, 600, 900, 1200, 1280]);
    done.clear();
    let read = session
        .upload_with_progress(0x8000, 1280, 512, |count| done.push(count))
        .unwrap();
    assert_eq!(read, data);
    assert_eq!(done, vec![512, 1024, 1280]);
    assert_eq!(session.upload_with_progress(0x8001, 2, 512, |_| {}).unwrap(), data[1..3]);
}

#[test]
fn puts_do_not_overwrite() {
    let mut session = Session::new(player_with_files());
    let error = put_file(&mut session, &[7], "/nvr/settings", 256, false).unwrap_err();
    assert!(matches!(error, Os9Error::Create { .. }));
    assert_eq!(
        error.message(),
        "OS-9 could not create destination file \"/nvr/settings\"; it may already exist"
    );
    assert_eq!(session.into_inner().files["/nvr/settings"], vec![1, 2, 3]);
}

#[test]
fn failed_writes_report_the_error_code_and_close_the_file() {
    let mut player = Player::new();
    player.refuse_call = Some(0x8a);
    let mut session = Session::new(player);
    let error = put_file(&mut session, &[7; 300], "/nvr/x", 256, false).unwrap_err();
    assert_eq!(
        error.message(),
        "OS-9 reported error 0x000000D7 while writing \"/nvr/x\""
    );
    let player = session.into_inner();
    assert_eq!(player.calls, vec![0x83, 0x8a, 0x8f]);
    assert!(player.open.is_none());
}

#[test]
fn files_are_closed_when_reading_them_fails() {
    let mut player = player_with_files();
    player.bad_reads = Some((2, 4));
    let mut session = Session::new(player);
    let error = get_file(&mut session, "/nvr/scores", 256, false).unwrap_err();
    assert_eq!(error.message(), "reading OS-9 file result registers");
    let player = session.into_inner();
    assert_eq!(player.calls, vec![0x84, 0x89, 0x89, 0x8f]);
    assert!(player.open.is_none());
}

#[test]
fn directories_are_closed_when_reading_them_fails() {
    let mut player = player_with_files();
    player.bad_reads = Some((1, 4));
    let mut session = Session::new(player);
    let error = read_directory(&mut session, "/nvr", 32, false).unwrap_err();
    assert_eq!(error.message(), "reading OS-9 directory result registers");
    let player = session.into_inner();
    assert_eq!(player.calls, vec![0x84, 0x8d, 0x89, 0x8f]);
    assert!(player.open.is_none());
}

#[test]
fn a_directory_whose_status_cannot_be_read_stays_open() {
    let mut player = player_with_files();
    player.bad_reads = Some((0, 4));
    let mut session = Session::new(player);
    let error = read_directory(&mut session, "/nvr", 32, false).unwrap_err();
    assert_eq!(error.message(), "reading OS-9 directory status byte");
    assert_eq!(session.into_inner().calls, vec![0x84, 0x8d]);
}

#[test]
fn failed_deletes_report_the_error_code() {
    let mut session = Session::new(Player::new());
    let error = delete_file(&mut session, "/nvr/none", false).unwrap_err();
    assert_eq!(
        error.message(),
        "OS-9 could not delete \"/nvr/none\" (error 0x000000D8)"
    );
}

#[test]
fn missing_files_are_reported() {
    let mut session = Session::new(Player::new());
    let error = get_file(&mut session, "/nvr/none", 256, false).unwrap_err();
    assert_eq!(
        error.message(),
        "OS-9 could not open source file \"/nvr/none\" (error reported by Stub)"
    );
    let error = read_directory(&mut session, "/none", 256, false).unwrap_err();
    assert_eq!(
        error.message(),
        "OS-9 could not open directory \"/none\" (error reported by Stub)"
    );
}

#[test]
fn directories_need_a_status() {
    let mut player = player_with_files();
    player.refuse_call = Some(0x8d);
    let mut session = Session::new(player);
    let error = read_directory(&mut session, "/nvr", 256, false).unwrap_err();
    assert_eq!(
        error.message(),
        "OS-9 could not query directory status for \"/nvr\""
    );
}

#[test]
fn arguments_are_checked_before_anything_is_sent() {
    let mut session = Session::new(Player::new());
    let message = "--chunk-size must be in 1..=65535";
    for size in [0, 65536] {
        assert_eq!(get_file(&mut session, "/x", size, false).unwrap_err().message(), message);
        assert_eq!(put_file(&mut session, &[1], "/x", size, false).unwrap_err().message(), message);
    }
    for size in [0, 31, 48, 65536] {
        assert_eq!(
            read_directory(&mut session, "/nvr", size, false).unwrap_err().message(),
            "--read-size must be a non-zero multiple of 32, up to 65535"
        );
    }
    assert_eq!(
        get_file(&mut session, "/a\0b", 1, false).unwrap_err().message(),
        "source path must not contain a NUL byte"
    );
    assert_eq!(
        put_file(&mut session, &[], "\0", 1, false).unwrap_err().message(),
        "destination path must not contain a NUL byte"
    );
    assert_eq!(
        read_directory(&mut session, "\0", 32, false).unwrap_err().message(),
        "directory path must not contain a NUL byte"
    );
    assert_eq!(
        delete_file(&mut session, "/\0", false).unwrap_err().message(),
        "path to delete must not contain a NUL byte"
    );
    for path in ["", "nvr/x"] {
        assert_eq!(
            delete_file(&mut session, path, false).unwrap_err().message(),
            "delete requires an absolute OS-9 path, such as /nvr/old-file"
        );
    }
    assert_eq!(session.into_inner().requests, 0);
}

#[test]
fn small_buffers_are_refused() {
    let mut player = player_with_files();
    player.buffer_limit = 4;
    let mut session = Session::new(player);
    let text = |role: &str| format!("full Stub allocated an unexpectedly small OS-9 {role} buffer");
    assert_eq!(
        read_directory(&mut session, "/nvr", 32, false).unwrap_err().message(),
        text("path")
    );
    assert_eq!(
        get_file(&mut session, "/nvr/x", 32, false).unwrap_err().message(),
        text("source-path")
    );
    assert_eq!(
        put_file(&mut session, &[], "/nvr/x", 32, false).unwrap_err().message(),
        text("destination-path")
    );
    assert_eq!(
        delete_file(&mut session, "/nvr/x", false).unwrap_err().message(),
        text("delete-path")
    );
}

#[test]
fn failed_steps_are_named() {
    let mut player = Player::new();
    player.gone = true;
    let mut session = Session::new(player);
    let error = get_file(&mut session, "/x", 1, false).unwrap_err();
    assert_eq!(error.message(), "initializing full Stub address");
    match error {
        Os9Error::Stub { error: Error::Io(error), .. } => {
            assert_eq!(error.kind, IoErrorKind::TimedOut)
        }
        _ => panic!("not the error of the port"),
    }
}

#[test]
fn calls_can_be_traced() {
    let mut session = Session::new(player_with_files());
    get_file(&mut session, "/nvr/settings", 2, true).unwrap();
    assert_eq!(
        session.into_inner().notes,
        vec![
            "I$Open \"/nvr/settings\" (read)",
            "I$Read \"/nvr/settings\" (2 bytes requested)",
            "I$Read \"/nvr/settings\" (2 bytes requested)",
            "I$Read \"/nvr/settings\" (2 bytes requested)",
            "I$Close \"/nvr/settings\"",
        ]
    );
    let mut session = Session::new(player_with_files());
    put_file(&mut session, &[1, 2, 3], "/nvr/\"x\"", 2, true).unwrap();
    delete_file(&mut session, "/nvr/\"x\"", true).unwrap();
    read_directory(&mut session, "/nvr", 64, true).unwrap();
    assert_eq!(
        session.into_inner().notes,
        vec![
            "I$Create \"/nvr/\\\"x\\\"\"",
            "I$Write \"/nvr/\\\"x\\\"\" (2 bytes)",
            "I$Write \"/nvr/\\\"x\\\"\" (1 bytes)",
            "I$Close \"/nvr/\\\"x\\\"\"",
            "I$Delete \"/nvr/\\\"x\\\"\"",
            "I$Open \"/nvr\" (directory)",
            "I$GetStt \"/nvr\"",
            "I$Read \"/nvr\" (64 bytes requested)",
            "I$Read \"/nvr\" (64 bytes requested)",
            "I$Read \"/nvr\" (64 bytes requested)",
            "I$Close \"/nvr\"",
        ]
    );
}

#[test]
fn directories_are_listed() {
    let mut session = Session::new(player_with_files());
    let listing = list_directory(&mut session, "/nvr", 32, false).unwrap();
    assert_eq!(listing.lines, vec!["settings\t0x00000010", "scores\t0x00000020"]);
    assert_eq!(listing.entries, 2);
    let listing = list_directory(&mut session, "/cd", 32, false).unwrap();
    assert_eq!(
        listing.lines,
        vec![
            "Sector      Size Name",
            "------ --------- -----",
            "    18      2048 .",
            "    20       300 copyright",
            "    21     70000 cdi_app",
        ]
    );
    assert_eq!(listing.entries, 1);
    assert!(list_directory(&mut session, "/none", 32, false).is_err());
}

#[test]
fn mounted_roots_hold_two_directories() {
    let mut mount = Mount::new(Session::new(player_with_files()), false);
    let root = mount.getattr(1).unwrap();
    assert!(root.directory);
    assert_eq!((root.ino, root.size, root.blocks, root.perm), (1, 0, 0, 0o755));
    assert_eq!((root.nlink, root.rdev, root.blksize, root.flags), (1, 0, 256, 0));
    let entries = mount.readdir(1, 0).unwrap();
    let shown: Vec<(u64, u64, bool, &str)> = entries
        .iter()
        .map(|entry| (entry.ino, entry.next, entry.directory, entry.name.as_str()))
        .collect();
    assert_eq!(
        shown,
        vec![
            (1, 1, true, "."),
            (1, 2, true, ".."),
            (3, 3, true, "cd"),
            (4, 4, true, "nvr"),
        ]
    );
    assert_eq!(mount.lookup(1, "nvr").unwrap().ino, 4);
    assert_eq!(mount.lookup(1, "cd").unwrap().ino, 3);
    assert!(mount.getattr(3).unwrap().directory);
    assert_eq!(mount.lookup(1, "other"), Err(Refusal::NotFound));
}

#[test]
fn mounted_names_end_with_a_zero_byte() {
    let longest = "n".repeat(27);
    let unended = "n".repeat(28);
    let mut player = Player::new();
    player.directories.insert(
        "/nvr".to_owned(),
        [disk_entry(&unended, 0x30), disk_entry(&longest, 0x31)].concat(),
    );
    player.files.insert(format!("/nvr/{longest}"), vec![4; 5]);
    player.files.insert(format!("/nvr/{unended}"), vec![4; 6]);
    let mut mount = Mount::new(Session::new(player), false);
    let nvr = mount.lookup(1, "nvr").unwrap().ino;
    let entries = mount.readdir(nvr, 2).unwrap();
    assert_eq!(entries.len(), 1);
    assert_eq!(entries[0].name, longest);
    assert_eq!(mount.lookup(nvr, &longest).unwrap().size, 5);
    assert_eq!(mount.lookup(nvr, &unended), Err(Refusal::NotFound));
}

#[test]
fn mounted_directories_are_listed_from_an_offset() {
    let mut mount = Mount::new(Session::new(player_with_files()), false);
    let nvr = mount.lookup(1, "nvr").unwrap().ino;
    let names = |entries: Vec<cdi_serial::mount::DirectoryEntry>| {
        entries
            .iter()
            .map(|entry| format!("{} {} {}", entry.ino, entry.next, entry.name))
            .collect::<Vec<String>>()
    };
    assert_eq!(
        names(mount.readdir(nvr, 0).unwrap()),
        vec!["3 1 .", "1 2 ..", "4 3 settings", "5 4 scores"]
    );
    assert_eq!(names(mount.readdir(nvr, 1).unwrap()), vec!["1 2 ..", "4 3 settings", "5 4 scores"]);
    assert_eq!(names(mount.readdir(nvr, 3).unwrap()), vec!["5 4 scores"]);
    assert!(mount.readdir(nvr, 4).unwrap().is_empty());
    assert!(mount.readdir(nvr, u64::MAX).unwrap().is_empty());
    assert!(!mount.readdir(nvr, 3).unwrap()[0].directory);
}

#[test]
fn mounted_files_are_fetched_once() {
    let mut mount = Mount::new(Session::new(player_with_files()), true);
    let cd = mount.lookup(1, "cd").unwrap().ino;
    let file = mount.lookup(cd, "copyright").unwrap();
    assert_eq!((file.size, file.blocks, file.perm, file.directory), (300, 1, 0o644, false));
    assert_eq!(mount.lookup(cd, "cdi_app").unwrap().blocks, 137);
    assert_eq!(mount.read(file.ino, 0, 10).unwrap(), vec![b'c'; 10]);
    assert_eq!(mount.read(file.ino, 295, 10).unwrap(), vec![b'c'; 5]);
    assert_eq!(mount.read(file.ino, 300, 10).unwrap(), Vec::<u8>::new());
    assert_eq!(mount.read(file.ino, u64::MAX, u32::MAX).unwrap(), Vec::<u8>::new());
    assert_eq!(mount.read(99, 0, 10), Err(Refusal::NotFound));
    assert_eq!(mount.lookup(cd, "nothing"), Err(Refusal::NotFound));
    assert_eq!(mount.open(file.ino, true), Ok(0));
    assert_eq!(mount.open(file.ino, false), Err(Refusal::ReadOnly));
}

#[test]
fn fetched_contents_are_remembered() {
    let player = Rc::new(RefCell::new(player_with_files()));
    let mut mount = Mount::new(Session::new(Shared(Rc::clone(&player))), false);
    let cd = mount.lookup(1, "cd").unwrap().ino;
    let file = mount.lookup(cd, "copyright").unwrap().ino;

    player.borrow_mut().gone = true;
    assert_eq!(mount.read(file, 0, 3), Err(Refusal::NotFound));
    player.borrow_mut().gone = false;
    player.borrow_mut().output.clear();
    assert_eq!(mount.read(file, 0, 3).unwrap(), b"ccc");

    player.borrow_mut().files.insert("/cd/copyright".to_owned(), vec![b'd'; 300]);
    let requests = player.borrow().requests;
    assert_eq!(mount.read(file, 0, 3).unwrap(), b"ccc");
    assert_eq!(mount.read(file, 297, 9).unwrap(), b"ccc");
    assert_eq!(mount.lookup(cd, "copyright").unwrap().ino, file);
    assert_eq!(mount.getattr(file).unwrap().size, 300);
    assert_eq!(player.borrow().requests, requests);
}

#[test]
fn mounted_disk_files_are_sized_by_reading_them() {
    let mut mount = Mount::new(Session::new(player_with_files()), false);
    let nvr = mount.lookup(1, "nvr").unwrap().ino;
    assert_eq!(mount.lookup(nvr, "scores").unwrap().size, 700);
    assert_eq!(mount.getattr(4).unwrap().size, 700);
}

#[test]
fn new_files_are_staged_and_sent_when_closed() {
    let mut mount = Mount::new(Session::new(player_with_files()), false);
    let nvr = mount.lookup(1, "nvr").unwrap().ino;
    let file = mount.create(nvr, "new").unwrap();
    assert_eq!((file.ino, file.size), (4, 0));
    assert_eq!(mount.open(file.ino, false), Ok(4));
    assert_eq!(mount.write(file.ino, file.ino, 0, b"hello"), Ok(5));
    assert_eq!(mount.write(file.ino, 0, 7, b"world"), Ok(5));
    assert_eq!(mount.write(file.ino, 0, 0, b"J"), Ok(1));
    assert_eq!(mount.read(file.ino, 0, 100).unwrap(), b"Jello\0\0world");
    assert_eq!(mount.read(file.ino, 7, 5).unwrap(), b"world");
    assert_eq!(mount.getattr(file.ino).unwrap().size, 12);
    assert_eq!(mount.flush(), Ok(()));
    assert_eq!(mount.unlink(nvr, "new"), Err(Refusal::Busy));
    assert_eq!(mount.release(file.ino, file.ino), Ok(()));
    assert_eq!(mount.write(file.ino, file.ino, 0, b"x"), Err(Refusal::ReadOnly));
    assert_eq!(mount.read(file.ino, 0, 100).unwrap(), b"Jello\0\0world");
    assert_eq!(mount.lookup(nvr, "new").unwrap(), mount.getattr(file.ino).unwrap());
    assert_eq!(mount.create(nvr, "new"), Err(Refusal::Exists));
    assert_eq!(mount.release(file.ino, file.ino), Ok(()));
    assert_eq!(mount.unlink(nvr, "new"), Ok(()));
    assert_eq!(mount.lookup(nvr, "new"), Err(Refusal::NotFound));
    assert_eq!(mount.unlink(nvr, "new"), Err(Refusal::InputOutput));
}

#[test]
fn names_are_checked() {
    let mut mount = Mount::new(Session::new(player_with_files()), false);
    let nvr = mount.lookup(1, "nvr").unwrap().ino;
    for name in ["", ".", "..", "a/b"] {
        assert_eq!(mount.create(nvr, name), Err(Refusal::InvalidName));
        assert_eq!(mount.unlink(nvr, name), Err(Refusal::InvalidName));
    }
    assert_eq!(mount.create(nvr, &"n".repeat(29)), Err(Refusal::NameTooLong));
    assert_eq!(mount.create(nvr, &"é".repeat(15)), Err(Refusal::NameTooLong));
    assert!(mount.create(nvr, &"n".repeat(28)).is_ok());
    assert_eq!(mount.create(nvr, "settings"), Err(Refusal::Exists));
}

#[test]
fn only_nvr_can_be_changed() {
    let mut mount = Mount::new(Session::new(player_with_files()), false);
    let cd = mount.lookup(1, "cd").unwrap().ino;
    assert_eq!(mount.create(cd, "x"), Err(Refusal::ReadOnly));
    assert_eq!(mount.unlink(cd, "copyright"), Err(Refusal::ReadOnly));
    assert_eq!(mount.create(1, "x"), Err(Refusal::AccessDenied));
    assert_eq!(mount.unlink(1, "nvr"), Err(Refusal::AccessDenied));
    assert_eq!(mount.create(77, "x"), Err(Refusal::AccessDenied));
}

#[test]
fn files_that_would_not_fit_are_refused() {
    let mut mount = Mount::new(Session::new(player_with_files()), false);
    assert_eq!(mount.write(4, 4, u64::MAX, b"x"), Err(Refusal::TooLarge));
    assert_eq!(mount.write(4, 4, 0, b"x"), Err(Refusal::ReadOnly));
}

#[test]
fn a_player_that_is_gone_is_an_input_output_error() {
    let mut player = player_with_files();
    player.gone = true;
    let mut mount = Mount::new(Session::new(player), false);
    let nvr = mount.lookup(1, "nvr").unwrap().ino;
    assert_eq!(mount.create(nvr, "x"), Err(Refusal::InputOutput));
    assert_eq!(mount.unlink(nvr, "x"), Err(Refusal::InputOutput));
    assert_eq!(mount.lookup(nvr, "x"), Err(Refusal::NotFound));
    assert_eq!(mount.readdir(nvr, 0).unwrap_err(), Refusal::InputOutput);
}

#[test]
fn a_file_that_the_player_refuses_is_gone() {
    let mut player = player_with_files();
    player.refuse_call = Some(0x83);
    let mut mount = Mount::new(Session::new(player), false);
    let nvr = mount.lookup(1, "nvr").unwrap().ino;
    let file = mount.create(nvr, "new").unwrap();
    assert_eq!(mount.release(file.ino, file.ino), Err(Refusal::InputOutput));
    assert_eq!(mount.open(file.ino, false), Err(Refusal::ReadOnly));
    assert_eq!(mount.lookup(nvr, "new"), Err(Refusal::NotFound));
    assert_eq!(mount.getattr(file.ino), Err(Refusal::NotFound));
}

#[test]
fn requests_are_built_by_hand() {
    assert_eq!(request(WRITE, &[0, 1, 7]), vec![SOH, WRITE, 0, 1, 7, 6]);
}
