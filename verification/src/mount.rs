//! A player mounted as a file system of the host.
//!
//! This is what stands behind the requests of the host's file-system layer;
//! handing requests in and replies out is up to the caller.

use std::collections::HashMap;

use vstd::prelude::*;
use vstd::slice::slice_subrange;
use vstd::string::*;

use crate::dialogue::{lemma_last, lemma_part, lemma_start, reaches, Dialogue};
use crate::directory::{cdfm_entries, disk_file_names, file_names};
use crate::error::shown;
use crate::os9;
use crate::os9::call_text;
use crate::service;
use crate::session::Session;
use crate::table::{numbered, Inodes, Table};
use crate::text::chars_of;
use crate::transport::Transport;
use crate::volume;
use crate::volume::{
    attributes, base_name, child, fixed_directory, from_offset, listing, nvr_names, nvr_path,
    numbered_children, overwritten, path_or_root, pending_handle, proper_name, staged_at, window,
    with_committed, with_deleted, with_sizes, without, Attributes, Listed, Manner, Refusal, Staged,
    Volume, LONGEST_NAME, TRANSFER_SIZE,
};

verus! {

broadcast use vstd::std_specs::hash::group_hash_axioms;

/// A new file, as long as it is open.
struct PendingFile {
    path: String,
    data: Vec<u8>,
    committed: bool,
}

impl DeepView for PendingFile {
    type V = Staged;

    closed spec fn deep_view(&self) -> Staged {
        Staged { path: self.path@, data: self.data@, committed: self.committed }
    }
}

/// The new files, as far as requests can tell.
spec fn staged_files(pending: Map<u64, PendingFile>) -> Map<u64, Staged> {
    pending.map_values(|file: PendingFile| file.deep_view())
}

/// An entry of a directory, as the host is told of it.
#[derive(Debug)]
pub struct DirectoryEntry {
    pub ino: u64,
    /// Where to go on after this entry.
    pub next: u64,
    pub directory: bool,
    pub name: String,
}

impl DeepView for DirectoryEntry {
    type V = Listed;

    open spec fn deep_view(&self) -> Listed {
        Listed { ino: self.ino, next: self.next, directory: self.directory, name: self.name@ }
    }
}

/// A mounted player.
pub struct Mount<T> {
    session: Session<T>,
    verbose: bool,
    paths: Inodes,
    directories: Table<Vec<String>>,
    sizes: Table<u64>,
    files: Table<Vec<u8>>,
    pending: HashMap<u64, PendingFile>,
}

impl<T> View for Mount<T> {
    type V = Volume;

    closed spec fn view(&self) -> Volume {
        Volume {
            paths: self.paths@,
            directories: self.directories@,
            sizes: self.sizes@,
            files: self.files@,
            pending: staged_files(self.pending@),
        }
    }
}

impl<T: Transport> Mount<T> {
    /// The session with the player.
    pub closed spec fn session(&self) -> Session<T> {
        self.session
    }

    /// How the file system talks to the player.
    pub closed spec fn manner(&self) -> Manner {
        Manner { settings: self.session.settings(), verbose: self.verbose }
    }

    /// Between this state of a mounted player and a later one, exactly the
    /// given dialogue took place; it ended with what the later state remembers
    /// and with the given outcome.
    pub open spec fn carried_out<A>(
        &self,
        later: &Self,
        dialogue: Dialogue<(Volume, A)>,
        outcome: A,
    ) -> bool {
        &&& later.manner() == self.manner()
        &&& later.session().transport().script() == self.session().transport().script()
        &&& reaches(
            self.session().log(),
            dialogue,
            later.session().log(),
            Dialogue::Over((later@, outcome)),
        )
    }

    /// A player of which nothing is known yet.
    pub fn new(session: Session<T>, verbose: bool) -> (mount: Self)
        ensures
            mount.session() == session,
            mount.manner() == (Manner { settings: session.settings(), verbose }),
            mount@ == volume::fresh(),
    {
        let pending: HashMap<u64, PendingFile> = HashMap::new();
        assert(staged_files(pending@) =~= Map::empty());
        Mount {
            session,
            verbose,
            paths: Inodes::new(),
            directories: Table::new(),
            sizes: Table::new(),
            files: Table::new(),
            pending,
        }
    }
}

/// What the host is told about a file of this kind and size.
fn attr(ino: u64, directory: bool, size: u64) -> (result: Attributes)
    ensures
        result == attributes(ino, directory, size),
{
    let blocks: u64 = if size % 512 == 0 { size / 512 } else { size / 512 + 1 };
    Attributes {
        ino,
        size,
        blocks,
        directory,
        perm: if directory { 0o755 } else { 0o644 },
        nlink: 1,
        rdev: 0,
        blksize: 256,
        flags: 0,
    }
}

/// The text is a given one.
fn is_text(text: &String, other: &str) -> (result: bool)
    ensures
        result == (text@ == other@),
{
    *text == other.to_owned()
}

/// The path of a name in a directory.
fn child_path(path: &String, name: &str) -> (result: String)
    ensures
        result@ == child(path@, name@),
{
    if is_text(path, "/") {
        let mut result: String = "/".to_owned();
        result.append(name);
        result
    } else {
        let mut result: String = path.clone();
        result.append("/");
        result.append(name);
        result
    }
}

/// The path of a name in the non-volatile memory.
fn nvr_path_of(name: &str) -> (result: String)
    ensures
        result@ == nvr_path(name@),
{
    let mut result: String = "/nvr/".to_owned();
    result.append(name);
    result
}

/// The name is one of these.
fn has_name(names: &Vec<String>, name: &str) -> (found: bool)
    ensures
        found == names.deep_view().contains(name@),
{
    let mut index: usize = 0;
    while index < names.len()
        invariant
            index <= names@.len(),
            forall|i: int| 0 <= i < index ==> #[trigger] names.deep_view()[i] != name@,
        decreases names@.len() - index,
    {
        assert(names.deep_view()[index as int] == names@[index as int]@);
        if is_text(&names[index], name) {
            return true;
        }
        index = index + 1;
    }
    false
}

/// A copy of a list of names.
fn copied_names(names: &Vec<String>) -> (copy: Vec<String>)
    ensures
        copy.deep_view() == names.deep_view(),
{
    let mut copy: Vec<String> = Vec::new();
    let mut index: usize = 0;
    while index < names.len()
        invariant
            index <= names@.len(),
            copy@ == names@.take(index as int),
        decreases names@.len() - index,
    {
        copy.push(names[index].clone());
        index = index + 1;
        assert(copy@ =~= names@.take(index as int));
    }
    assert(copy@ =~= names@);
    copy
}

/// A copy of some bytes.
fn copied_bytes(bytes: &Vec<u8>) -> (copy: Vec<u8>)
    ensures
        copy@ == bytes@,
{
    let mut copy: Vec<u8> = Vec::new();
    copy.extend_from_slice(bytes.as_slice());
    assert(copy@ =~= bytes@);
    copy
}

/// The last part of a path.
fn base_name_of(path: &String) -> (name: String)
    ensures
        name@ == base_name(path@),
{
    let characters: Vec<char> = chars_of(path.as_str());
    let mut name: String = String::new();
    let mut index: usize = 0;
    assert(path@.take(0) =~= Seq::empty());
    while index < characters.len()
        invariant
            index <= characters@.len(),
            characters@ == path@,
            name@ == base_name(path@.take(index as int)),
        decreases characters@.len() - index,
    {
        assert(path@.take(index + 1).drop_last() =~= path@.take(index as int));
        if characters[index] == '/' {
            name = String::new();
        } else {
            name.push(characters[index]);
        }
        index = index + 1;
    }
    assert(path@.take(index as int) =~= path@);
    name
}

/// The name can be that of a file.
fn is_proper_name(name: &str) -> (result: bool)
    ensures
        result == proper_name(name@),
{
    let text: String = name.to_owned();
    if name.is_empty() || is_text(&text, ".") || is_text(&text, "..") {
        return false;
    }
    let characters: Vec<char> = chars_of(name);
    let mut index: usize = 0;
    while index < characters.len()
        invariant
            index <= characters@.len(),
            characters@ == name@,
            forall|i: int| 0 <= i < index ==> #[trigger] name@[i] != '/',
        decreases characters@.len() - index,
    {
        if characters[index] == '/' {
            assert(name@[index as int] == '/');
            return false;
        }
        index = index + 1;
    }
    true
}

/// Why a directory does not let its entries be changed.
fn directory_refusal(path: &String) -> (refusal: Option<Refusal>)
    ensures
        refusal == fixed_directory(path@),
{
    if is_text(path, "/cd") {
        Some(Refusal::ReadOnly)
    } else if !is_text(path, "/nvr") {
        Some(Refusal::AccessDenied)
    } else {
        None
    }
}

/// The part of the data that a read request asks for.
fn window_of(data: &Vec<u8>, offset: u64, size: u32) -> (part: Vec<u8>)
    ensures
        part@ == window(data@, offset, size),
{
    let mut part: Vec<u8> = Vec::new();
    if offset < data.len() as u64 {
        let start: usize = offset as usize;
        let left: usize = data.len() - start;
        let end: usize = if (size as u64) < left as u64 {
            start + size as usize
        } else {
            data.len()
        };
        part.extend_from_slice(slice_subrange(data.as_slice(), start, end));
    }
    assert(part@ =~= window(data@, offset, size));
    part
}

/// Puts bytes over data from `offset` on. A gap is filled with zeros.
fn overwrite(data: &mut Vec<u8>, offset: usize, bytes: &[u8])
    requires
        offset + bytes@.len() <= usize::MAX,
    ensures
        final(data)@ == overwritten(old(data)@, offset as nat, bytes@),
{
    let end: usize = offset + bytes.len();
    if data.len() < end {
        data.resize(end, 0);
    }
    let ghost base = data@;
    let mut index: usize = 0;
    while index < bytes.len()
        invariant
            index <= bytes@.len(),
            offset + bytes@.len() == end,
            end <= data@.len(),
            data@.len() == base.len(),
            forall|i: int|
                0 <= i < base.len() ==> #[trigger] data@[i] == if offset <= i < offset + index {
                    bytes@[i - offset]
                } else {
                    base[i]
                },
        decreases bytes@.len() - index,
    {
        data.set(offset + index, bytes[index]);
        index = index + 1;
    }
    assert(data@ =~= overwritten(old(data)@, offset as nat, bytes@));
}

/// Notes the sizes of the files that were found in a directory, and returns
/// their names.
fn note_sizes(
    sizes: &mut Table<u64>,
    path: &String,
    entries: &Vec<(u32, u32, String)>,
) -> (names: Vec<String>)
    ensures
        final(sizes)@ == with_sizes(old(sizes)@, path@, entries.deep_view()),
        names.deep_view() == file_names(entries.deep_view()),
{
    let ghost all = entries.deep_view();
    let mut names: Vec<String> = Vec::new();
    let mut index: usize = 0;
    assert(all.take(0) =~= Seq::empty());
    assert(names.deep_view() =~= Seq::empty());
    while index < entries.len()
        invariant
            index <= entries@.len(),
            all == entries.deep_view(),
            sizes@ == with_sizes(old(sizes)@, path@, all.take(index as int)),
            names.deep_view() == file_names(all.take(index as int)),
        decreases entries@.len() - index,
    {
        let entry = &entries[index];
        assert(all[index as int] == entry.deep_view());
        assert(all.take(index + 1).drop_last() =~= all.take(index as int));
        if !is_text(&entry.2, ".") {
            let mut key: String = path.clone();
            key.append("/");
            key.append(entry.2.as_str());
            sizes.insert(key, entry.1 as u64);
            let ghost earlier = names.deep_view();
            names.push(entry.2.clone());
            assert(names.deep_view() =~= earlier.push(entry.2@));
        }
        index = index + 1;
    }
    assert(all.take(index as int) =~= all);
    names
}

/// The names that a list holds, if there is one.
pub open spec fn shown_names(names: Result<Vec<String>, ()>) -> Result<Seq<Seq<char>>, ()> {
    match names {
        Ok(names) => Ok(names.deep_view()),
        Err(_) => Err(()),
    }
}

/// The bytes that were read, if they were.
pub open spec fn shown_bytes(bytes: Result<Vec<u8>, ()>) -> Result<Seq<u8>, ()> {
    match bytes {
        Ok(bytes) => Ok(bytes@),
        Err(_) => Err(()),
    }
}

impl<T: Transport> Mount<T> {
    /// The path with a number; the root if there is none.
    fn path_or_root(&self, ino: u64) -> (path: String)
        ensures
            path@ == path_or_root(self@, ino),
    {
        match self.paths.path(ino) {
            Some(path) => path,
            None => "/".to_owned(),
        }
    }

    /// The names in a directory. It is read only once.
    fn names(&mut self, path: &String) -> (result: Result<Vec<String>, ()>)
        ensures
            old(self).carried_out(
                final(self),
                volume::names(old(self).manner(), old(self)@, path@),
                shown_names(result),
            ),
    {
        let ghost start = self.session.log();
        let ghost whole = volume::names(self.manner(), self@, path@);
        let ghost settings = self.session.settings();
        proof {
            lemma_start(start, whole);
        }
        if let Some(names) = self.directories.get(path) {
            return Ok(copied_names(names));
        }
        let line: String = call_text("FUSE readdir", path.as_str());
        self.session.os9_trace(self.verbose, line.as_str());
        proof {
            lemma_part(
                start,
                whole,
                start,
                service::os9_trace(self.verbose, line@),
                self.session.log(),
                (),
            );
        }
        let ghost before = self.session.log();
        let read = os9::read_directory(
            &mut self.session,
            path.as_str(),
            TRANSFER_SIZE,
            self.verbose,
        );
        proof {
            lemma_part(
                start,
                whole,
                before,
                service::read_directory(settings, path@, 256, self.verbose),
                self.session.log(),
                shown(read),
            );
        }
        let data: Vec<u8> = match read {
            Ok(data) => data,
            Err(_) => {
                return Err(());
            },
        };
        let entries: Vec<(u32, u32, String)> = cdfm_entries(data.as_slice());
        assert(entries.deep_view().len() == entries@.len());
        let names: Vec<String> = if entries.len() > 0 {
            note_sizes(&mut self.sizes, path, &entries)
        } else {
            disk_file_names(data.as_slice())
        };
        self.directories.insert(path.clone(), copied_names(&names));
        Ok(names)
    }

    /// The contents of a file. It is read only once.
    fn file(&mut self, path: &String) -> (result: Result<Vec<u8>, ()>)
        ensures
            old(self).carried_out(
                final(self),
                volume::file(old(self).manner(), old(self)@, path@),
                shown_bytes(result),
            ),
    {
        let ghost start = self.session.log();
        let ghost whole = volume::file(self.manner(), self@, path@);
        let ghost settings = self.session.settings();
        proof {
            lemma_start(start, whole);
        }
        if let Some(data) = self.files.get(path) {
            assert(data.deep_view() =~= data@);
            return Ok(copied_bytes(data));
        }
        let line: String = call_text("FUSE read", path.as_str());
        self.session.os9_trace(self.verbose, line.as_str());
        proof {
            lemma_part(
                start,
                whole,
                start,
                service::os9_trace(self.verbose, line@),
                self.session.log(),
                (),
            );
        }
        let ghost before = self.session.log();
        let read = os9::get_file(&mut self.session, path.as_str(), TRANSFER_SIZE, self.verbose);
        proof {
            lemma_part(
                start,
                whole,
                before,
                service::get_file(settings, path@, 256, self.verbose),
                self.session.log(),
                shown(read),
            );
        }
        let data: Vec<u8> = match read {
            Ok(data) => data,
            Err(_) => {
                return Err(());
            },
        };
        let copy: Vec<u8> = copied_bytes(&data);
        assert(copy.deep_view() =~= data@);
        self.files.insert(path.clone(), copy);
        Ok(data)
    }
}

impl<T: Transport> Mount<T> {
    /// The number of the new file that a request is about.
    fn pending_handle(&self, fh: u64, ino: u64) -> (handle: Option<u64>)
        ensures
            handle == pending_handle(self@, fh, ino),
    {
        if self.pending.get(&fh).is_some() {
            Some(fh)
        } else if self.pending.get(&ino).is_some() {
            Some(ino)
        } else {
            None
        }
    }

    /// Notes that the player has a new file.
    fn note_committed(&mut self, handle: u64)
        requires
            old(self)@.pending.contains_key(handle),
        ensures
            final(self)@ == with_committed(old(self)@, handle),
            final(self).session() == old(self).session(),
            final(self).manner() == old(self).manner(),
    {
        if let Some(file) = self.pending.remove(&handle) {
            let path: String = file.path.clone();
            let data: Vec<u8> = copied_bytes(&file.data);
            let _ = self.pending.insert(
                handle,
                PendingFile { path: file.path, data: file.data, committed: true },
            );
            self.sizes.insert(path.clone(), data.len() as u64);
            assert(data.deep_view() =~= data@);
            let name: String = base_name_of(&path);
            self.files.insert(path, data);
            let nvr: String = "/nvr".to_owned();
            let mut names: Vec<String> = match self.directories.take(&nvr) {
                Some(names) => names,
                None => Vec::new(),
            };
            assert(names.deep_view() =~= nvr_names(old(self)@));
            if !has_name(&names, name.as_str()) {
                let ghost earlier = names.deep_view();
                names.push(name);
                assert(names.deep_view() =~= earlier.push(name@));
            }
            self.directories.insert(nvr, names);
        }
        let ghost expected = with_committed(old(self)@, handle);
        assert(self@.directories =~= expected.directories);
        assert(self@.pending =~= expected.pending);
    }

    /// Transfers a new file to the player, unless that was done before.
    fn commit_pending(&mut self, handle: u64) -> (result: Result<(), ()>)
        ensures
            old(self).carried_out(
                final(self),
                volume::commit(old(self).manner(), old(self)@, handle),
                result,
            ),
    {
        let ghost start = self.session.log();
        let ghost whole = volume::commit(self.manner(), self@, handle);
        let ghost settings = self.session.settings();
        proof {
            lemma_start(start, whole);
        }
        let (path, data): (String, Vec<u8>) = match self.pending.get(&handle) {
            Some(file) => {
                if file.committed {
                    return Ok(());
                }
                (file.path.clone(), copied_bytes(&file.data))
            },
            None => {
                return Err(());
            },
        };
        let line: String = call_text("FUSE commit", path.as_str());
        self.session.os9_trace(self.verbose, line.as_str());
        proof {
            lemma_part(
                start,
                whole,
                start,
                service::os9_trace(self.verbose, line@),
                self.session.log(),
                (),
            );
        }
        let ghost before = self.session.log();
        let put = os9::put_file(
            &mut self.session,
            data.as_slice(),
            path.as_str(),
            TRANSFER_SIZE,
            self.verbose,
        );
        proof {
            lemma_part(
                start,
                whole,
                before,
                service::put_file(settings, data@, path@, 256, self.verbose),
                self.session.log(),
                shown(put),
            );
        }
        match put {
            Ok(_) => {
                self.note_committed(handle);
                Ok(())
            },
            Err(_) => Err(()),
        }
    }

    /// What the host is told about a file that is not a directory.
    fn file_attributes(
        &mut self,
        ino: u64,
        path: &String,
        unreadable: Refusal,
    ) -> (result: Result<Attributes, Refusal>)
        ensures
            old(self).carried_out(
                final(self),
                volume::file_attributes(old(self).manner(), old(self)@, ino, path@, unreadable),
                shown(result),
            ),
    {
        let ghost start = self.session.log();
        let ghost whole = volume::file_attributes(self.manner(), self@, ino, path@, unreadable);
        proof {
            lemma_start(start, whole);
        }
        if let Some(file) = self.pending.get(&ino) {
            return Ok(attr(ino, false, file.data.len() as u64));
        }
        if let Some(size) = self.sizes.get(path) {
            return Ok(attr(ino, false, *size));
        }
        let ghost earlier = self@;
        let ghost manner = self.manner();
        let read = self.file(path);
        proof {
            lemma_part(
                start,
                whole,
                start,
                volume::file(manner, earlier, path@),
                self.session.log(),
                (self@, shown_bytes(read)),
            );
        }
        match read {
            Ok(data) => Ok(attr(ino, false, data.len() as u64)),
            Err(_) => Err(unreadable),
        }
    }

    /// Looks a name up in a directory.
    pub fn lookup(&mut self, parent: u64, name: &str) -> (result: Result<Attributes, Refusal>)
        ensures
            old(self).carried_out(
                final(self),
                volume::lookup(old(self).manner(), old(self)@, parent, name@),
                shown(result),
            ),
    {
        let ghost start = self.session.log();
        let ghost manner = self.manner();
        let ghost earlier = self@;
        let ghost whole = volume::lookup(manner, earlier, parent, name@);
        proof {
            lemma_start(start, whole);
        }
        let parent_path: String = self.path_or_root(parent);
        let path: String = child_path(&parent_path, name);
        let text: String = name.to_owned();
        if is_text(&parent_path, "/") && (is_text(&text, "cd") || is_text(&text, "nvr")) {
            let ino: u64 = self.paths.number(&path);
            return Ok(attr(ino, true, 0));
        }
        let listed = self.names(&parent_path);
        proof {
            lemma_part(
                start,
                whole,
                start,
                volume::names(manner, earlier, parent_path@),
                self.session.log(),
                (self@, shown_names(listed)),
            );
        }
        match listed {
            Ok(names) => {
                if !has_name(&names, name) {
                    return Err(Refusal::NotFound);
                }
                let ino: u64 = self.paths.number(&path);
                let ghost before = self.session.log();
                let ghost numbered = self@;
                let result = self.file_attributes(ino, &path, Refusal::InputOutput);
                proof {
                    lemma_last(
                        start,
                        whole,
                        before,
                        volume::file_attributes(
                            manner,
                            numbered,
                            ino,
                            path@,
                            Refusal::InputOutput,
                        ),
                        self.session.log(),
                        Dialogue::Over((self@, shown(result))),
                    );
                }
                result
            },
            Err(_) => Err(Refusal::NotFound),
        }
    }

    /// Asks about a file.
    pub fn getattr(&mut self, ino: u64) -> (result: Result<Attributes, Refusal>)
        ensures
            old(self).carried_out(
                final(self),
                volume::getattr(old(self).manner(), old(self)@, ino),
                shown(result),
            ),
    {
        let path: String = self.path_or_root(ino);
        if is_text(&path, "/") || is_text(&path, "/cd") || is_text(&path, "/nvr") {
            proof {
                lemma_start(
                    self.session.log(),
                    volume::getattr(self.manner(), self@, ino),
                );
            }
            return Ok(attr(ino, true, 0));
        }
        self.file_attributes(ino, &path, Refusal::NotFound)
    }

    /// Opens a file. The result is the handle.
    pub fn open(&self, ino: u64, read_only: bool) -> (result: Result<u64, Refusal>)
        ensures
            result == volume::open_file(self@, ino, read_only),
    {
        match self.pending_handle(ino, ino) {
            Some(handle) => Ok(handle),
            None => if read_only {
                Ok(0)
            } else {
                Err(Refusal::ReadOnly)
            },
        }
    }

    /// Reads a part of a file.
    pub fn read(&mut self, ino: u64, offset: u64, size: u32) -> (result: Result<Vec<u8>, Refusal>)
        ensures
            old(self).carried_out(
                final(self),
                volume::read(old(self).manner(), old(self)@, ino, offset, size),
                shown(result),
            ),
    {
        let ghost start = self.session.log();
        let ghost manner = self.manner();
        let ghost earlier = self@;
        let ghost whole = volume::read(manner, earlier, ino, offset, size);
        proof {
            lemma_start(start, whole);
        }
        if let Some(file) = self.pending.get(&ino) {
            return Ok(window_of(&file.data, offset, size));
        }
        match self.paths.path(ino) {
            Some(path) => {
                let read = self.file(&path);
                proof {
                    lemma_part(
                        start,
                        whole,
                        start,
                        volume::file(manner, earlier, path@),
                        self.session.log(),
                        (self@, shown_bytes(read)),
                    );
                }
                match read {
                    Ok(data) => Ok(window_of(&data, offset, size)),
                    Err(_) => Err(Refusal::NotFound),
                }
            },
            None => Err(Refusal::NotFound),
        }
    }
}

/// The names other than a given one.
fn other_names(names: &Vec<String>, name: &str) -> (others: Vec<String>)
    ensures
        others.deep_view() == without(names.deep_view(), name@),
{
    reveal(Seq::filter);
    let ghost all = names.deep_view();
    let ghost other = |entry: Seq<char>| entry != name@;
    let mut others: Vec<String> = Vec::new();
    let mut index: usize = 0;
    assert(others.deep_view() =~= all.take(0).filter(other));
    while index < names.len()
        invariant
            index <= names@.len(),
            all == names.deep_view(),
            other == (|entry: Seq<char>| entry != name@),
            others.deep_view() == all.take(index as int).filter(other),
        decreases names@.len() - index,
    {
        reveal(Seq::filter);
        assert(all[index as int] == names@[index as int]@);
        assert(all.take(index + 1).drop_last() =~= all.take(index as int));
        if !is_text(&names[index], name) {
            let ghost earlier = others.deep_view();
            others.push(names[index].clone());
            assert(others.deep_view() =~= earlier.push(all[index as int]));
        }
        index = index + 1;
    }
    assert(all.take(index as int) =~= all);
    others
}

impl<T: Transport> Mount<T> {
    /// Creates a file. The inode number is also the handle.
    pub fn create(&mut self, parent: u64, name: &str) -> (result: Result<Attributes, Refusal>)
        ensures
            old(self).carried_out(
                final(self),
                volume::create(old(self).manner(), old(self)@, parent, name@),
                shown(result),
            ),
    {
        let ghost start = self.session.log();
        let ghost manner = self.manner();
        let ghost earlier = self@;
        let ghost whole = volume::create(manner, earlier, parent, name@);
        proof {
            lemma_start(start, whole);
        }
        let parent_path: String = self.path_or_root(parent);
        if let Some(refusal) = directory_refusal(&parent_path) {
            return Err(refusal);
        }
        if !is_proper_name(name) {
            return Err(Refusal::InvalidName);
        }
        if name.as_bytes().len() > LONGEST_NAME {
            return Err(Refusal::NameTooLong);
        }
        let nvr: String = "/nvr".to_owned();
        let listed = self.names(&nvr);
        proof {
            lemma_part(
                start,
                whole,
                start,
                volume::names(manner, earlier, "/nvr"@),
                self.session.log(),
                (self@, shown_names(listed)),
            );
        }
        match listed {
            Ok(names) => {
                if has_name(&names, name) {
                    return Err(Refusal::Exists);
                }
                let path: String = nvr_path_of(name);
                let ino: u64 = self.paths.number(&path);
                let data: Vec<u8> = Vec::new();
                assert(data@ =~= Seq::empty());
                let file: PendingFile = PendingFile { path, data, committed: false };
                let ghost before = self.pending@;
                let _ = self.pending.insert(ino, file);
                assert(staged_files(self.pending@) =~= staged_files(before).insert(
                    ino,
                    file.deep_view(),
                ));
                Ok(attr(ino, false, 0))
            },
            Err(_) => Err(Refusal::InputOutput),
        }
    }

    /// Writes to a file. That is possible only as long as it is staged. The
    /// result is the number of bytes written.
    ///
    /// A staged file cannot be larger than memory allows for any object.
    pub fn write(
        &mut self,
        ino: u64,
        fh: u64,
        offset: u64,
        bytes: &[u8],
    ) -> (result: Result<u32, Refusal>)
        requires
            volume::write(old(self)@, ino, fh, offset, bytes@).1 is Ok ==> offset + bytes@.len()
                <= isize::MAX,
        ensures
            final(self).session() == old(self).session(),
            final(self).manner() == old(self).manner(),
            (final(self)@, result) == volume::write(old(self)@, ino, fh, offset, bytes@),
    {
        if offset > usize::MAX as u64 {
            return Err(Refusal::TooLarge);
        }
        let place: usize = offset as usize;
        if usize::MAX - place < bytes.len() {
            return Err(Refusal::TooLarge);
        }
        let handle: u64 = match self.pending_handle(fh, ino) {
            Some(handle) => handle,
            None => {
                return Err(Refusal::ReadOnly);
            },
        };
        let committed: bool = match self.pending.get(&handle) {
            Some(file) => file.committed,
            None => true,
        };
        if committed {
            return Err(Refusal::ReadOnly);
        }
        if let Some(file) = self.pending.remove(&handle) {
            let mut data: Vec<u8> = file.data;
            overwrite(&mut data, place, bytes);
            let _ = self.pending.insert(
                handle,
                PendingFile { path: file.path, data, committed: file.committed },
            );
        }
        assert(self@.pending =~= volume::write(old(self)@, ino, fh, offset, bytes@).0.pending);
        Ok(bytes.len() as u32)
    }

    /// Does nothing. The host may flush a file before its final write, and the
    /// player can create a file only once; so a new file is transferred only
    /// when it is closed.
    pub fn flush(&self) -> (result: Result<(), Refusal>)
        ensures
            result == Ok::<(), Refusal>(()),
    {
        Ok(())
    }

    /// Closes a file. A new file is transferred now, and is no longer staged
    /// whether or not that succeeds.
    pub fn release(&mut self, ino: u64, fh: u64) -> (result: Result<(), Refusal>)
        ensures
            old(self).carried_out(
                final(self),
                volume::release(old(self).manner(), old(self)@, ino, fh),
                result,
            ),
    {
        let ghost start = self.session.log();
        let ghost manner = self.manner();
        let ghost earlier = self@;
        let ghost whole = volume::release(manner, earlier, ino, fh);
        proof {
            lemma_start(start, whole);
        }
        let handle: u64 = match self.pending_handle(fh, ino) {
            Some(handle) => handle,
            None => {
                return Ok(());
            },
        };
        let committed = self.commit_pending(handle);
        proof {
            lemma_part(
                start,
                whole,
                start,
                volume::commit(manner, earlier, handle),
                self.session.log(),
                (self@, committed),
            );
        }
        let ghost before = self.pending@;
        let _ = self.pending.remove(&handle);
        assert(staged_files(self.pending@) =~= staged_files(before).remove(handle));
        match committed {
            Ok(_) => Ok(()),
            Err(_) => Err(Refusal::InputOutput),
        }
    }

    /// A new file with this path is open.
    fn is_staged(&self, path: &String) -> (staged: bool)
        ensures
            staged == staged_at(self@, path@),
    {
        for file in iter: self.pending.values()
            invariant
                iter.seq().unref().to_set() == self.pending@.values(),
                forall|i: int|
                    0 <= i < iter.index() ==> (#[trigger] iter.seq()[i]).deep_view().path != path@,
        {
            if file.path == *path {
                proof {
                    assert(*file == iter.seq().unref()[iter.index()]);
                    assert(iter.seq().unref().to_set().contains(*file));
                    let key = choose|key: u64|
                        #[trigger] self.pending@.dom().contains(key) && self.pending@[key]
                            == *file;
                    assert(self@.pending.contains_key(key) && self@.pending[key].path == path@);
                }
                return true;
            }
        }
        proof {
            assert forall|key: u64| #[trigger]
                self@.pending.contains_key(key) implies self@.pending[key].path != path@ by {
                let file = self.pending@[key];
                assert(self.pending@.values().contains(file));
            }
        }
        false
    }

    /// Forgets what was known about a file that was deleted.
    fn note_deleted(&mut self, name: &str, path: &String)
        requires
            path@ == nvr_path(name@),
        ensures
            final(self)@ == with_deleted(old(self)@, name@),
            final(self).session() == old(self).session(),
            final(self).manner() == old(self).manner(),
    {
        let _ = self.files.take(path);
        let _ = self.sizes.take(path);
        let nvr: String = "/nvr".to_owned();
        if let Some(names) = self.directories.take(&nvr) {
            self.directories.insert(nvr, other_names(&names, name));
        }
        assert(self@.directories =~= with_deleted(old(self)@, name@).directories);
    }

    /// Deletes a file.
    pub fn unlink(&mut self, parent: u64, name: &str) -> (result: Result<(), Refusal>)
        ensures
            old(self).carried_out(
                final(self),
                volume::unlink(old(self).manner(), old(self)@, parent, name@),
                result,
            ),
    {
        let ghost start = self.session.log();
        let ghost whole = volume::unlink(self.manner(), self@, parent, name@);
        let ghost settings = self.session.settings();
        proof {
            lemma_start(start, whole);
        }
        let parent_path: String = self.path_or_root(parent);
        if let Some(refusal) = directory_refusal(&parent_path) {
            return Err(refusal);
        }
        if !is_proper_name(name) {
            return Err(Refusal::InvalidName);
        }
        let path: String = nvr_path_of(name);
        if self.is_staged(&path) {
            return Err(Refusal::Busy);
        }
        let line: String = call_text("FUSE unlink", path.as_str());
        self.session.os9_trace(self.verbose, line.as_str());
        proof {
            lemma_part(
                start,
                whole,
                start,
                service::os9_trace(self.verbose, line@),
                self.session.log(),
                (),
            );
        }
        let ghost before = self.session.log();
        let deleted = os9::delete_file(&mut self.session, path.as_str(), self.verbose);
        proof {
            lemma_part(
                start,
                whole,
                before,
                service::delete_file(settings, path@, self.verbose),
                self.session.log(),
                shown(deleted),
            );
        }
        match deleted {
            Ok(_) => {
                self.note_deleted(name, &path);
                Ok(())
            },
            Err(_) => Err(Refusal::InputOutput),
        }
    }

    /// Gives inode numbers to the names in a directory.
    fn number_children(&mut self, path: &String, names: &Vec<String>) -> (numbers: Vec<u64>)
        ensures
            (final(self)@.paths, numbers@) == numbered_children(
                old(self)@.paths,
                path@,
                names.deep_view(),
            ),
            numbers@.len() == names@.len(),
            final(self)@ == (Volume { paths: final(self)@.paths, ..old(self)@ }),
            final(self).session() == old(self).session(),
            final(self).manner() == old(self).manner(),
    {
        let ghost all = names.deep_view();
        let mut numbers: Vec<u64> = Vec::new();
        let mut index: usize = 0;
        assert(all.take(0) =~= Seq::empty());
        assert(numbers@ =~= Seq::empty());
        while index < names.len()
            invariant
                index <= names@.len(),
                all == names.deep_view(),
                numbers@.len() == index,
                (self@.paths, numbers@) == numbered_children(
                    old(self)@.paths,
                    path@,
                    all.take(index as int),
                ),
                self@ == (Volume { paths: self@.paths, ..old(self)@ }),
                self.session() == old(self).session(),
                self.manner() == old(self).manner(),
            decreases names@.len() - index,
        {
            assert(all[index as int] == names@[index as int]@);
            assert(all.take(index + 1).drop_last() =~= all.take(index as int));
            let child: String = child_path(path, names[index].as_str());
            let number: u64 = self.paths.number(&child);
            numbers.push(number);
            index = index + 1;
        }
        assert(all.take(index as int) =~= all);
        numbers
    }

    /// Lists a directory from a position on. Every name in it gets a number.
    pub fn readdir(&mut self, ino: u64, offset: u64) -> (result: Result<
        Vec<DirectoryEntry>,
        Refusal,
    >)
        ensures
            old(self).carried_out(
                final(self),
                volume::readdir(old(self).manner(), old(self)@, ino, offset),
                shown_entries(result),
            ),
    {
        let ghost start = self.session.log();
        let ghost manner = self.manner();
        let ghost earlier = self@;
        let ghost whole = volume::readdir(manner, earlier, ino, offset);
        proof {
            lemma_start(start, whole);
        }
        let path: String = self.path_or_root(ino);
        let names: Vec<String> = if is_text(&path, "/") {
            let mut names: Vec<String> = Vec::new();
            names.push("cd".to_owned());
            names.push("nvr".to_owned());
            assert(names.deep_view() =~= seq!["cd"@, "nvr"@]);
            names
        } else {
            let listed = self.names(&path);
            proof {
                lemma_part(
                    start,
                    whole,
                    start,
                    volume::names(manner, earlier, path@),
                    self.session.log(),
                    (self@, shown_names(listed)),
                );
            }
            match listed {
                Ok(names) => names,
                Err(_) => {
                    return Err(Refusal::InputOutput);
                },
            }
        };
        let numbers: Vec<u64> = self.number_children(&path, &names);
        Ok(entries_of(ino, &path, &names, &numbers, offset))
    }
}

/// The entries that were listed, if they were.
pub open spec fn shown_entries(entries: Result<Vec<DirectoryEntry>, Refusal>) -> Result<
    Seq<Listed>,
    Refusal,
> {
    match entries {
        Ok(entries) => Ok(entries.deep_view()),
        Err(refusal) => Err(refusal),
    }
}

/// The names that are listed for a directory: itself, the one above it, and the
/// names in it.
fn labels_of(names: &Vec<String>) -> (labels: Vec<String>)
    ensures
        labels.deep_view() == seq!["."@, ".."@] + names.deep_view(),
{
    let ghost all = names.deep_view();
    let mut labels: Vec<String> = Vec::new();
    labels.push(".".to_owned());
    labels.push("..".to_owned());
    assert(labels.deep_view() =~= seq!["."@, ".."@] + all.take(0));
    let mut index: usize = 0;
    while index < names.len()
        invariant
            index <= names@.len(),
            all == names.deep_view(),
            labels.deep_view() == seq!["."@, ".."@] + all.take(index as int),
        decreases names@.len() - index,
    {
        let ghost earlier = labels.deep_view();
        assert(all[index as int] == names@[index as int]@);
        labels.push(names[index].clone());
        assert(labels.deep_view() =~= earlier.push(all[index as int]));
        index = index + 1;
        assert(labels.deep_view() =~= seq!["."@, ".."@] + all.take(index as int));
    }
    assert(all.take(index as int) =~= all);
    labels
}

/// The entries of a directory, from a position on.
fn entries_of(
    ino: u64,
    path: &String,
    names: &Vec<String>,
    numbers: &Vec<u64>,
    offset: u64,
) -> (entries: Vec<DirectoryEntry>)
    requires
        numbers@.len() == names@.len(),
    ensures
        entries.deep_view() == from_offset(
            listing(ino, path@, names.deep_view(), numbers@),
            offset,
        ),
{
    let ghost all = listing(ino, path@, names.deep_view(), numbers@);
    let directory: bool = is_text(path, "/");
    let labels: Vec<String> = labels_of(names);
    assert(labels.deep_view().len() == labels@.len());
    let first: usize = if offset < labels.len() as u64 { offset as usize } else { labels.len() };
    let mut entries: Vec<DirectoryEntry> = Vec::new();
    assert(entries.deep_view() =~= all.subrange(first as int, first as int));
    let mut index: usize = first;
    while index < labels.len()
        invariant
            first <= index <= labels@.len(),
            numbers@.len() == names.deep_view().len(),
            labels.deep_view().len() == labels@.len(),
            labels.deep_view() == seq!["."@, ".."@] + names.deep_view(),
            directory == (path@ == "/"@),
            all == listing(ino, path@, names.deep_view(), numbers@),
            entries.deep_view() == all.subrange(first as int, index as int),
        decreases labels@.len() - index,
    {
        let ghost earlier = entries.deep_view();
        assert(labels.deep_view()[index as int] == labels@[index as int]@);
        let entry: DirectoryEntry = DirectoryEntry {
            ino: if index == 0 { ino } else if index == 1 { 1 } else { numbers[index - 2] },
            next: (index + 1) as u64,
            directory: index < 2 || directory,
            name: labels[index].clone(),
        };
        assert(entry.deep_view() == all[index as int]);
        entries.push(entry);
        assert(entries.deep_view() =~= earlier.push(all[index as int]));
        index = index + 1;
        assert(entries.deep_view() =~= all.subrange(first as int, index as int));
    }
    assert(entries.deep_view() =~= from_offset(all, offset));
    entries
}

} // verus!
