//! The model of a mounted player: what the file system remembers, and the
//! dialogue with the player that each request of the host leads to.
//!
//! The root holds two directories: `/cd`, the compact disc, which is read-only,
//! and `/nvr`, the non-volatile memory, where files can be created and deleted.
//! A new file is staged on the host and is transferred when it is closed.

use vstd::prelude::*;
use vstd::utf8::encode_utf8;

use crate::dialogue::{chain, Dialogue};
use crate::directory::{names_in, records, CdfmEntry};
use crate::service;
use crate::service::{call_line, Os9Failure};
use crate::stub::Settings;
use crate::table::{numbered, only_root, path_at, Paths};

verus! {

/// How much of a file or a directory is transferred at a time.
pub const TRANSFER_SIZE: usize = 256;

/// How long the name of a file can be, in bytes.
pub const LONGEST_NAME: usize = 28;

/// Why a request of the host is refused.
#[derive(Clone, Copy, Debug, PartialEq, Eq, Structural)]
pub enum Refusal {
    /// The directory does not take new files.
    AccessDenied,
    /// The file is still open.
    Busy,
    /// The file exists already.
    Exists,
    /// The file would be too large.
    TooLarge,
    /// The name cannot be that of a file.
    InvalidName,
    /// The player did not do what it was asked to.
    InputOutput,
    /// The name is too long.
    NameTooLong,
    /// There is no such file.
    NotFound,
    /// The file cannot be changed.
    ReadOnly,
}

/// What the host is told about a file.
#[derive(Clone, Copy, Debug, PartialEq, Eq, Structural)]
pub struct Attributes {
    pub ino: u64,
    pub size: u64,
    pub blocks: u64,
    pub directory: bool,
    pub perm: u16,
    pub nlink: u32,
    pub rdev: u32,
    pub blksize: u32,
    pub flags: u32,
}

impl View for Refusal {
    type V = Refusal;

    open spec fn view(&self) -> Refusal {
        *self
    }
}

impl View for Attributes {
    type V = Attributes;

    open spec fn view(&self) -> Attributes {
        *self
    }
}

/// What the host is told about a file of this kind and size.
pub open spec fn attributes(ino: u64, directory: bool, size: u64) -> Attributes {
    Attributes {
        ino,
        size,
        blocks: ((size + 511) / 512) as u64,
        directory,
        perm: if directory {
            0o755
        } else {
            0o644
        },
        nlink: 1,
        rdev: 0,
        blksize: 256,
        flags: 0,
    }
}

/// A new file, as long as it is open.
pub struct Staged {
    pub path: Seq<char>,
    pub data: Seq<u8>,
    /// The player has it.
    pub committed: bool,
}

/// What a mounted file system remembers.
pub struct Volume {
    /// The inode numbers.
    pub paths: Paths,
    /// The names in the directories that were read.
    pub directories: Map<Seq<char>, Seq<Seq<char>>>,
    /// The sizes that are known without reading the file.
    pub sizes: Map<Seq<char>, u64>,
    /// The files that were read.
    pub files: Map<Seq<char>, Seq<u8>>,
    /// The new files that are open, by inode number.
    pub pending: Map<u64, Staged>,
}

/// How a mounted file system talks to the player.
pub struct Manner {
    pub settings: Settings,
    /// Diagnostic lines are shown.
    pub verbose: bool,
}

/// What is remembered at first.
pub open spec fn fresh() -> Volume {
    Volume {
        paths: only_root(),
        directories: Map::empty(),
        sizes: Map::empty(),
        files: Map::empty(),
        pending: Map::empty(),
    }
}

/// The path with a number; the root if there is none.
pub open spec fn path_or_root(volume: Volume, ino: u64) -> Seq<char> {
    match path_at(volume.paths, ino) {
        Some(path) => path,
        None => "/"@,
    }
}

/// The path of a name in a directory.
pub open spec fn child(path: Seq<char>, name: Seq<char>) -> Seq<char> {
    if path == "/"@ {
        "/"@ + name
    } else {
        path + "/"@ + name
    }
}

/// The path of a name in the non-volatile memory.
pub open spec fn nvr_path(name: Seq<char>) -> Seq<char> {
    "/nvr/"@ + name
}

/// The last part of a path.
pub open spec fn base_name(path: Seq<char>) -> Seq<char>
    decreases path.len(),
{
    if path.len() == 0 || path.last() == '/' {
        Seq::empty()
    } else {
        base_name(path.drop_last()).push(path.last())
    }
}

/// The sizes that are known once these files were found in a directory.
pub open spec fn with_sizes(
    sizes: Map<Seq<char>, u64>,
    path: Seq<char>,
    entries: Seq<CdfmEntry>,
) -> Map<Seq<char>, u64>
    decreases entries.len(),
{
    if entries.len() == 0 {
        sizes
    } else {
        let earlier = with_sizes(sizes, path, entries.drop_last());
        let entry = entries.last();
        if entry.2 == "."@ {
            earlier
        } else {
            earlier.insert(path + "/"@ + entry.2, entry.1 as u64)
        }
    }
}

/// What is remembered once a directory was read.
pub open spec fn with_directory(volume: Volume, path: Seq<char>, data: Seq<u8>) -> Volume {
    Volume {
        directories: volume.directories.insert(path, names_in(data)),
        sizes: with_sizes(volume.sizes, path, records(data)),
        ..volume
    }
}

/// What is remembered once a file was read.
pub open spec fn with_file(volume: Volume, path: Seq<char>, data: Seq<u8>) -> Volume {
    Volume { files: volume.files.insert(path, data), ..volume }
}

/// The names in a directory. It is read only once.
pub open spec fn names(manner: Manner, volume: Volume, path: Seq<char>) -> Dialogue<
    (Volume, Result<Seq<Seq<char>>, ()>),
> {
    if volume.directories.contains_key(path) {
        Dialogue::Over((volume, Ok(volume.directories[path])))
    } else {
        chain(
            service::os9_trace(manner.verbose, call_line("FUSE readdir"@, path)),
            |_traced: ()|
                chain(
                    service::read_directory(manner.settings, path, 256, manner.verbose),
                    |outcome: Result<Seq<u8>, Os9Failure>|
                        match outcome {
                            Ok(data) => Dialogue::Over(
                                (with_directory(volume, path, data), Ok(names_in(data))),
                            ),
                            Err(_) => Dialogue::Over((volume, Err(()))),
                        },
                ),
        )
    }
}

/// The contents of a file. It is read only once.
pub open spec fn file(manner: Manner, volume: Volume, path: Seq<char>) -> Dialogue<
    (Volume, Result<Seq<u8>, ()>),
> {
    if volume.files.contains_key(path) {
        Dialogue::Over((volume, Ok(volume.files[path])))
    } else {
        chain(
            service::os9_trace(manner.verbose, call_line("FUSE read"@, path)),
            |_traced: ()|
                chain(
                    service::get_file(manner.settings, path, 256, manner.verbose),
                    |outcome: Result<Seq<u8>, Os9Failure>|
                        match outcome {
                            Ok(data) => Dialogue::Over((with_file(volume, path, data), Ok(data))),
                            Err(_) => Dialogue::Over((volume, Err(()))),
                        },
                ),
        )
    }
}

/// The number of the new file that a request is about. Some hosts do not hand
/// the handle back, so the inode number will do.
pub open spec fn pending_handle(volume: Volume, fh: u64, ino: u64) -> Option<u64> {
    if volume.pending.contains_key(fh) {
        Some(fh)
    } else if volume.pending.contains_key(ino) {
        Some(ino)
    } else {
        None
    }
}

/// The names in the non-volatile memory, as far as they are known.
pub open spec fn nvr_names(volume: Volume) -> Seq<Seq<char>> {
    if volume.directories.contains_key("/nvr"@) {
        volume.directories["/nvr"@]
    } else {
        Seq::empty()
    }
}

/// What is remembered once a new file was transferred.
pub open spec fn with_committed(volume: Volume, handle: u64) -> Volume {
    let staged = volume.pending[handle];
    let known = nvr_names(volume);
    let name = base_name(staged.path);
    Volume {
        paths: volume.paths,
        directories: volume.directories.insert(
            "/nvr"@,
            if known.contains(name) {
                known
            } else {
                known.push(name)
            },
        ),
        sizes: volume.sizes.insert(staged.path, staged.data.len() as u64),
        files: volume.files.insert(staged.path, staged.data),
        pending: volume.pending.insert(handle, Staged { committed: true, ..staged }),
    }
}

/// Transfers a new file to the player, unless that was done before.
pub open spec fn commit(manner: Manner, volume: Volume, handle: u64) -> Dialogue<
    (Volume, Result<(), ()>),
> {
    let staged = volume.pending[handle];
    if !volume.pending.contains_key(handle) {
        Dialogue::Over((volume, Err(())))
    } else if staged.committed {
        Dialogue::Over((volume, Ok(())))
    } else {
        chain(
            service::os9_trace(manner.verbose, call_line("FUSE commit"@, staged.path)),
            |_traced: ()|
                chain(
                    service::put_file(
                        manner.settings,
                        staged.data,
                        staged.path,
                        256,
                        manner.verbose,
                    ),
                    |outcome: Result<(), Os9Failure>|
                        match outcome {
                            Ok(_) => Dialogue::Over((with_committed(volume, handle), Ok(()))),
                            Err(_) => Dialogue::Over((volume, Err(()))),
                        },
                ),
        )
    }
}

/// What the host is told about a file that is not a directory: about a new file
/// what is staged, else the size that is known, else that of the contents,
/// which are read for it.
pub open spec fn file_attributes(
    manner: Manner,
    volume: Volume,
    ino: u64,
    path: Seq<char>,
    unreadable: Refusal,
) -> Dialogue<(Volume, Result<Attributes, Refusal>)> {
    if volume.pending.contains_key(ino) {
        Dialogue::Over(
            (volume, Ok(attributes(ino, false, volume.pending[ino].data.len() as u64))),
        )
    } else if volume.sizes.contains_key(path) {
        Dialogue::Over((volume, Ok(attributes(ino, false, volume.sizes[path]))))
    } else {
        chain(
            file(manner, volume, path),
            |outcome: (Volume, Result<Seq<u8>, ()>)|
                match outcome.1 {
                    Ok(data) => Dialogue::Over(
                        (outcome.0, Ok(attributes(ino, false, data.len() as u64))),
                    ),
                    Err(_) => Dialogue::Over((outcome.0, Err(unreadable))),
                },
        )
    }
}

/// Looks a name up in a directory.
pub open spec fn lookup(
    manner: Manner,
    volume: Volume,
    parent: u64,
    name: Seq<char>,
) -> Dialogue<(Volume, Result<Attributes, Refusal>)> {
    let parent_path = path_or_root(volume, parent);
    let path = child(parent_path, name);
    if parent_path == "/"@ && (name == "cd"@ || name == "nvr"@) {
        let (ino, paths) = numbered(volume.paths, path);
        Dialogue::Over((Volume { paths, ..volume }, Ok(attributes(ino, true, 0))))
    } else {
        chain(
            names(manner, volume, parent_path),
            |outcome: (Volume, Result<Seq<Seq<char>>, ()>)|
                match outcome.1 {
                    Ok(names) => if names.contains(name) {
                        let (ino, paths) = numbered(outcome.0.paths, path);
                        file_attributes(
                            manner,
                            Volume { paths, ..outcome.0 },
                            ino,
                            path,
                            Refusal::InputOutput,
                        )
                    } else {
                        Dialogue::Over((outcome.0, Err(Refusal::NotFound)))
                    },
                    Err(_) => Dialogue::Over((outcome.0, Err(Refusal::NotFound))),
                },
        )
    }
}

/// Asks about a file.
pub open spec fn getattr(manner: Manner, volume: Volume, ino: u64) -> Dialogue<
    (Volume, Result<Attributes, Refusal>),
> {
    let path = path_or_root(volume, ino);
    if path == "/"@ || path == "/cd"@ || path == "/nvr"@ {
        Dialogue::Over((volume, Ok(attributes(ino, true, 0))))
    } else {
        file_attributes(manner, volume, ino, path, Refusal::NotFound)
    }
}

/// Opens a file. The result is the handle.
pub open spec fn open_file(volume: Volume, ino: u64, read_only: bool) -> Result<u64, Refusal> {
    match pending_handle(volume, ino, ino) {
        Some(handle) => Ok(handle),
        None => if read_only {
            Ok(0)
        } else {
            Err(Refusal::ReadOnly)
        },
    }
}

/// The part of the data that a read request asks for.
pub open spec fn window(data: Seq<u8>, offset: u64, size: u32) -> Seq<u8> {
    if offset >= data.len() {
        Seq::empty()
    } else if offset + size >= data.len() {
        data.skip(offset as int)
    } else {
        data.subrange(offset as int, offset + size)
    }
}

/// Reads a part of a file.
pub open spec fn read(
    manner: Manner,
    volume: Volume,
    ino: u64,
    offset: u64,
    size: u32,
) -> Dialogue<(Volume, Result<Seq<u8>, Refusal>)> {
    if volume.pending.contains_key(ino) {
        Dialogue::Over((volume, Ok(window(volume.pending[ino].data, offset, size))))
    } else {
        match path_at(volume.paths, ino) {
            Some(path) => chain(
                file(manner, volume, path),
                |outcome: (Volume, Result<Seq<u8>, ()>)|
                    match outcome.1 {
                        Ok(data) => Dialogue::Over((outcome.0, Ok(window(data, offset, size)))),
                        Err(_) => Dialogue::Over((outcome.0, Err(Refusal::NotFound))),
                    },
            ),
            None => Dialogue::Over((volume, Err(Refusal::NotFound))),
        }
    }
}

/// The name can be that of a file.
pub open spec fn proper_name(name: Seq<char>) -> bool {
    &&& name.len() > 0
    &&& name != "."@
    &&& name != ".."@
    &&& !name.contains('/')
}

/// Why a directory does not let its entries be changed.
pub open spec fn fixed_directory(path: Seq<char>) -> Option<Refusal> {
    if path == "/cd"@ {
        Some(Refusal::ReadOnly)
    } else if path != "/nvr"@ {
        Some(Refusal::AccessDenied)
    } else {
        None
    }
}

/// What is remembered once a new file was created.
pub open spec fn with_created(volume: Volume, path: Seq<char>) -> Volume {
    let (ino, paths) = numbered(volume.paths, path);
    Volume {
        paths,
        pending: volume.pending.insert(
            ino,
            Staged { path, data: Seq::empty(), committed: false },
        ),
        ..volume
    }
}

/// Creates a file. The inode number is also the handle.
pub open spec fn create(
    manner: Manner,
    volume: Volume,
    parent: u64,
    name: Seq<char>,
) -> Dialogue<(Volume, Result<Attributes, Refusal>)> {
    match fixed_directory(path_or_root(volume, parent)) {
        Some(refusal) => Dialogue::Over((volume, Err(refusal))),
        None => if !proper_name(name) {
            Dialogue::Over((volume, Err(Refusal::InvalidName)))
        } else if encode_utf8(name).len() > LONGEST_NAME {
            Dialogue::Over((volume, Err(Refusal::NameTooLong)))
        } else {
            chain(
                names(manner, volume, "/nvr"@),
                |outcome: (Volume, Result<Seq<Seq<char>>, ()>)|
                    match outcome.1 {
                        Ok(names) => if names.contains(name) {
                            Dialogue::Over((outcome.0, Err(Refusal::Exists)))
                        } else {
                            Dialogue::Over(
                                (
                                    with_created(outcome.0, nvr_path(name)),
                                    Ok(
                                        attributes(
                                            numbered(outcome.0.paths, nvr_path(name)).0,
                                            false,
                                            0,
                                        ),
                                    ),
                                ),
                            )
                        },
                        Err(_) => Dialogue::Over((outcome.0, Err(Refusal::InputOutput))),
                    },
            )
        },
    }
}

/// Data with other bytes put over it from `offset` on. A gap is filled with
/// zeros.
pub open spec fn overwritten(data: Seq<u8>, offset: nat, bytes: Seq<u8>) -> Seq<u8> {
    let end = offset + bytes.len();
    Seq::new(
        if data.len() < end {
            end
        } else {
            data.len()
        },
        |i: int|
            if offset <= i < end {
                bytes[i - offset]
            } else if i < data.len() {
                data[i]
            } else {
                0
            },
    )
}

/// Writes to a file. That is possible only as long as it is staged.
pub open spec fn write(
    volume: Volume,
    ino: u64,
    fh: u64,
    offset: u64,
    bytes: Seq<u8>,
) -> (Volume, Result<u32, Refusal>) {
    if offset + bytes.len() > usize::MAX {
        (volume, Err(Refusal::TooLarge))
    } else {
        match pending_handle(volume, fh, ino) {
            None => (volume, Err(Refusal::ReadOnly)),
            Some(handle) => {
                let staged = volume.pending[handle];
                if staged.committed {
                    (volume, Err(Refusal::ReadOnly))
                } else {
                    (
                        Volume {
                            pending: volume.pending.insert(
                                handle,
                                Staged {
                                    data: overwritten(staged.data, offset as nat, bytes),
                                    ..staged
                                },
                            ),
                            ..volume
                        },
                        Ok(bytes.len() as u32),
                    )
                }
            },
        }
    }
}

/// Closes a file. A new file is transferred now, and is no longer staged
/// whether or not that succeeds.
pub open spec fn release(manner: Manner, volume: Volume, ino: u64, fh: u64) -> Dialogue<
    (Volume, Result<(), Refusal>),
> {
    match pending_handle(volume, fh, ino) {
        None => Dialogue::Over((volume, Ok(()))),
        Some(handle) => chain(
            commit(manner, volume, handle),
            |outcome: (Volume, Result<(), ()>)|
                Dialogue::Over(
                    (
                        Volume { pending: outcome.0.pending.remove(handle), ..outcome.0 },
                        match outcome.1 {
                            Ok(_) => Ok(()),
                            Err(_) => Err(Refusal::InputOutput),
                        },
                    ),
                ),
        ),
    }
}

/// A new file with this path is open.
pub open spec fn staged_at(volume: Volume, path: Seq<char>) -> bool {
    exists|handle: u64|
        volume.pending.contains_key(handle) && (#[trigger] volume.pending[handle]).path == path
}

/// The names other than a given one.
pub open spec fn without(names: Seq<Seq<char>>, name: Seq<char>) -> Seq<Seq<char>> {
    names.filter(|entry: Seq<char>| entry != name)
}

/// What is remembered once a file was deleted.
pub open spec fn with_deleted(volume: Volume, name: Seq<char>) -> Volume {
    Volume {
        files: volume.files.remove(nvr_path(name)),
        sizes: volume.sizes.remove(nvr_path(name)),
        directories: if volume.directories.contains_key("/nvr"@) {
            volume.directories.insert("/nvr"@, without(volume.directories["/nvr"@], name))
        } else {
            volume.directories
        },
        ..volume
    }
}

/// Deletes a file.
pub open spec fn unlink(
    manner: Manner,
    volume: Volume,
    parent: u64,
    name: Seq<char>,
) -> Dialogue<(Volume, Result<(), Refusal>)> {
    match fixed_directory(path_or_root(volume, parent)) {
        Some(refusal) => Dialogue::Over((volume, Err(refusal))),
        None => if !proper_name(name) {
            Dialogue::Over((volume, Err(Refusal::InvalidName)))
        } else if staged_at(volume, nvr_path(name)) {
            Dialogue::Over((volume, Err(Refusal::Busy)))
        } else {
            chain(
                service::os9_trace(manner.verbose, call_line("FUSE unlink"@, nvr_path(name))),
                |_traced: ()|
                    chain(
                        service::delete_file(manner.settings, nvr_path(name), manner.verbose),
                        |outcome: Result<(), Os9Failure>|
                            match outcome {
                                Ok(_) => Dialogue::Over((with_deleted(volume, name), Ok(()))),
                                Err(_) => Dialogue::Over(
                                    (volume, Err(Refusal::InputOutput)),
                                ),
                            },
                    ),
            )
        },
    }
}

/// An entry of a directory, as the host is told of it.
pub struct Listed {
    pub ino: u64,
    /// Where to go on after this entry.
    pub next: u64,
    pub directory: bool,
    pub name: Seq<char>,
}

/// Gives inode numbers to the names in a directory. The result holds the paths
/// known then, and the number of each name.
pub open spec fn numbered_children(paths: Paths, path: Seq<char>, names: Seq<Seq<char>>) -> (
    Paths,
    Seq<u64>,
)
    decreases names.len(),
{
    if names.len() == 0 {
        (paths, Seq::empty())
    } else {
        let (earlier, numbers) = numbered_children(paths, path, names.drop_last());
        let (number, later) = numbered(earlier, child(path, names.last()));
        (later, numbers.push(number))
    }
}

/// The entries of a directory: itself, the root, and the names in it.
pub open spec fn listing(
    ino: u64,
    path: Seq<char>,
    names: Seq<Seq<char>>,
    numbers: Seq<u64>,
) -> Seq<Listed> {
    seq![
        Listed { ino, next: 1, directory: true, name: "."@ },
        Listed { ino: 1, next: 2, directory: true, name: ".."@ },
    ] + Seq::new(
        names.len(),
        |i: int|
            Listed {
                ino: numbers[i],
                next: (i + 3) as u64,
                directory: path == "/"@,
                name: names[i],
            },
    )
}

/// The entries of a list from a position on.
pub open spec fn from_offset<A>(entries: Seq<A>, offset: u64) -> Seq<A> {
    if offset >= entries.len() {
        Seq::empty()
    } else {
        entries.skip(offset as int)
    }
}

/// Lists a directory from a position on. Every name in it gets a number.
pub open spec fn readdir(manner: Manner, volume: Volume, ino: u64, offset: u64) -> Dialogue<
    (Volume, Result<Seq<Listed>, Refusal>),
> {
    let path = path_or_root(volume, ino);
    chain(
        if path == "/"@ {
            Dialogue::Over((volume, Ok(seq!["cd"@, "nvr"@])))
        } else {
            names(manner, volume, path)
        },
        |outcome: (Volume, Result<Seq<Seq<char>>, ()>)|
            match outcome.1 {
                Ok(names) => {
                    let (paths, numbers) = numbered_children(outcome.0.paths, path, names);
                    Dialogue::Over(
                        (
                            Volume { paths, ..outcome.0 },
                            Ok(from_offset(listing(ino, path, names, numbers), offset)),
                        ),
                    )
                },
                Err(_) => Dialogue::Over((outcome.0, Err(Refusal::InputOutput))),
            },
    )
}

} // verus!
