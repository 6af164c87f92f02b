//! What holds of a mounted player as a whole.

use vstd::prelude::*;

use crate::dialogue::{follows, Dialogue};
use crate::line::Event;
use crate::record::lemma_first;
use crate::service;
use crate::service::call_line;
use crate::table::{known, number_of, numbered, numbering, path_at, Paths};
use crate::volume;
use crate::volume::{
    child, file_attributes, fixed_directory, from_offset, listing, nvr_names, nvr_path,
    numbered_children, path_or_root, pending_handle, proper_name, staged_at, window, without,
    Attributes, Listed, Manner, Refusal, Staged, Volume,
};

verus! {

/// The numbers that were given out stay as they are; there can be more.
pub open spec fn extends(earlier: Paths, later: Paths) -> bool {
    earlier.len() <= later.len() && later.take(earlier.len() as int) == earlier
}

/// What a mounted player always keeps to: no path has two inode numbers, and a
/// new file is staged under the number of its path, which is in the
/// non-volatile memory, and the player does not have it yet.
pub open spec fn consistent(volume: Volume) -> bool {
    &&& numbering(volume.paths)
    &&& volume.paths.len() <= u64::MAX
    &&& forall|handle: u64| #[trigger]
        volume.pending.contains_key(handle) ==> {
            let staged = volume.pending[handle];
            &&& path_at(volume.paths, handle) == Some(staged.path)
            &&& exists|name: Seq<char>| staged.path == #[trigger] nvr_path(name)
            &&& !staged.committed
        }
}

/// All that was read is still known, and there can be more.
pub open spec fn remembers(earlier: Volume, later: Volume) -> bool {
    &&& earlier.files.submap_of(later.files)
    &&& earlier.directories.submap_of(later.directories)
}

/// A player that was just mounted is consistent.
pub proof fn law_mounting_is_consistent()
    ensures
        consistent(volume::fresh()),
{
}

/// Giving a number keeps all others.
pub proof fn lemma_numbered(paths: Paths, path: Seq<char>)
    requires
        numbering(paths),
        paths.len() < u64::MAX,
    ensures
        numbering(numbered(paths, path).1),
        extends(paths, numbered(paths, path).1),
        path_at(numbered(paths, path).1, numbered(paths, path).0) == Some(path),
        numbered(paths, path).1.len() <= paths.len() + 1,
{
    let (number, later) = numbered(paths, path);
    if known(paths, path) {
        let found = number_of(paths, path);
        assert(paths[found] == Some(path));
        assert(later.take(paths.len() as int) =~= paths);
    } else {
        assert(later.take(paths.len() as int) =~= paths);
        assert forall|i: int, j: int|
            #![trigger later[i], later[j]]
            0 <= i < j < later.len() && later[i] is Some implies later[i] != later[j] by {
            assert(later[i] == paths[i]);
            if j < paths.len() {
                assert(later[j] == paths[j]);
            } else {
                assert(paths[i] != Some(path));
            }
        }
    }
}

/// A number that was given out stands for the same path ever after.
pub proof fn law_numbers_stay(earlier: Paths, later: Paths, number: u64)
    requires
        extends(earlier, later),
        path_at(earlier, number) is Some,
    ensures
        path_at(later, number) == path_at(earlier, number),
{
    assert(later.take(earlier.len() as int)[number as int] == later[number as int]);
}

/// Reading a directory, or finding it among those that were read. What is known
/// then includes it.
pub proof fn lemma_names(
    manner: Manner,
    volume: Volume,
    path: Seq<char>,
    log: Seq<Event>,
    after: Volume,
    result: Result<Seq<Seq<char>>, ()>,
)
    requires
        follows(log, volume::names(manner, volume, path), (after, result)),
    ensures
        after.paths == volume.paths,
        after.pending == volume.pending,
        after.files == volume.files,
        remembers(volume, after),
        result is Err ==> after == volume,
        result matches Ok(names) ==> after.directories == volume.directories.insert(path, names),
{
    let whole = volume::names(manner, volume, path);
    if volume.directories.contains_key(path) {
        assert(volume.directories.insert(path, volume.directories[path]) =~= volume.directories);
    } else {
        let line = call_line("FUSE readdir"@, path);
        let trace = service::os9_trace(manner.verbose, line);
        let (_, _, rest, next) = lemma_first(trace, whole, log, (after, result));
        let reading = service::read_directory(manner.settings, path, 256, manner.verbose);
        let (_, _, last, _) = lemma_first(reading, next, rest, (after, result));
    }
}

/// Reading a file, or finding it among those that were read. What is known then
/// includes it.
pub proof fn lemma_file(
    manner: Manner,
    volume: Volume,
    path: Seq<char>,
    log: Seq<Event>,
    after: Volume,
    result: Result<Seq<u8>, ()>,
)
    requires
        follows(log, volume::file(manner, volume, path), (after, result)),
    ensures
        after.paths == volume.paths,
        after.pending == volume.pending,
        after.directories == volume.directories,
        after.sizes == volume.sizes,
        remembers(volume, after),
        result is Err ==> after == volume,
        result matches Ok(data) ==> after.files == volume.files.insert(path, data),
{
    let whole = volume::file(manner, volume, path);
    if volume.files.contains_key(path) {
        assert(volume.files.insert(path, volume.files[path]) =~= volume.files);
    } else {
        let line = call_line("FUSE read"@, path);
        let trace = service::os9_trace(manner.verbose, line);
        let (_, _, rest, next) = lemma_first(trace, whole, log, (after, result));
        let reading = service::get_file(manner.settings, path, 256, manner.verbose);
        let (_, _, last, _) = lemma_first(reading, next, rest, (after, result));
    }
}

/// A directory is read only once: when it was read, its names are there without
/// another word to the player.
pub proof fn law_directories_are_read_once(
    manner: Manner,
    volume: Volume,
    path: Seq<char>,
    log: Seq<Event>,
    after: Volume,
    names: Seq<Seq<char>>,
)
    requires
        follows(log, volume::names(manner, volume, path), (after, Ok(names))),
    ensures
        volume::names(manner, after, path) == Dialogue::Over(
            (after, Ok::<Seq<Seq<char>>, ()>(names)),
        ),
{
    lemma_names(manner, volume, path, log, after, Ok(names));
}

/// A file is read only once: when it was read, its contents are there without
/// another word to the player.
pub proof fn law_files_are_read_once(
    manner: Manner,
    volume: Volume,
    path: Seq<char>,
    log: Seq<Event>,
    after: Volume,
    data: Seq<u8>,
)
    requires
        follows(log, volume::file(manner, volume, path), (after, Ok(data))),
    ensures
        volume::file(manner, after, path) == Dialogue::Over((after, Ok::<Seq<u8>, ()>(data))),
{
    lemma_file(manner, volume, path, log, after, Ok(data));
}

/// A file that was read is served from what is remembered of it, without a word
/// to the player.
pub proof fn law_remembered_files_are_served(
    manner: Manner,
    volume: Volume,
    ino: u64,
    path: Seq<char>,
    offset: u64,
    size: u32,
)
    requires
        !volume.pending.contains_key(ino),
        path_at(volume.paths, ino) == Some(path),
        volume.files.contains_key(path),
    ensures
        volume::read(manner, volume, ino, offset, size) == Dialogue::Over(
            (volume, Ok::<Seq<u8>, Refusal>(window(volume.files[path], offset, size))),
        ),
{
}

/// Asking about a file changes nothing but what is known of its contents.
pub proof fn lemma_file_attributes(
    manner: Manner,
    volume: Volume,
    ino: u64,
    path: Seq<char>,
    unreadable: Refusal,
    log: Seq<Event>,
    after: Volume,
    result: Result<Attributes, Refusal>,
)
    requires
        follows(log, file_attributes(manner, volume, ino, path, unreadable), (after, result)),
    ensures
        after.paths == volume.paths,
        after.pending == volume.pending,
        after.directories == volume.directories,
        after.sizes == volume.sizes,
        remembers(volume, after),
{
    let whole = file_attributes(manner, volume, ino, path, unreadable);
    if !volume.pending.contains_key(ino) && !volume.sizes.contains_key(path) {
        let reading = volume::file(manner, volume, path);
        let (first, read, rest, _) = lemma_first(reading, whole, log, (after, result));
        lemma_file(manner, volume, path, first, read.0, read.1);
        assert(rest.len() == 0);
    }
}

/// What stays of a volume whose new files stay and whose numbers are extended.
pub proof fn lemma_consistent(volume: Volume, after: Volume)
    requires
        consistent(volume),
        numbering(after.paths),
        extends(volume.paths, after.paths),
        after.paths.len() <= u64::MAX,
        after.pending == volume.pending,
    ensures
        consistent(after),
{
    assert forall|handle: u64| #[trigger] after.pending.contains_key(handle) implies {
        let staged = after.pending[handle];
        &&& path_at(after.paths, handle) == Some(staged.path)
        &&& exists|name: Seq<char>| staged.path == #[trigger] nvr_path(name)
        &&& !staged.committed
    } by {
        assert(volume.pending.contains_key(handle));
        law_numbers_stay(volume.paths, after.paths, handle);
    }
}

/// Numbers that are the same are an extension.
pub proof fn lemma_extends_itself(paths: Paths)
    ensures
        extends(paths, paths),
{
    assert(paths.take(paths.len() as int) =~= paths);
}

/// Looking a name up keeps the volume consistent, keeps all inode numbers and
/// all that was read, and changes no new file.
pub proof fn law_lookup_keeps_the_volume(
    manner: Manner,
    volume: Volume,
    parent: u64,
    name: Seq<char>,
    log: Seq<Event>,
    after: Volume,
    result: Result<Attributes, Refusal>,
)
    requires
        consistent(volume),
        volume.paths.len() < u64::MAX,
        follows(log, volume::lookup(manner, volume, parent, name), (after, result)),
    ensures
        consistent(after),
        extends(volume.paths, after.paths),
        after.pending == volume.pending,
        remembers(volume, after),
        result matches Ok(attributes) ==> path_at(after.paths, attributes.ino) == Some(
            child(path_or_root(volume, parent), name),
        ),
{
    let whole = volume::lookup(manner, volume, parent, name);
    let parent_path = path_or_root(volume, parent);
    let path = child(parent_path, name);
    lemma_numbered(volume.paths, path);
    lemma_extends_itself(volume.paths);
    if !(parent_path == "/"@ && (name == "cd"@ || name == "nvr"@)) {
        let listing = volume::names(manner, volume, parent_path);
        let (first, listed, rest, _) = lemma_first(listing, whole, log, (after, result));
        lemma_names(manner, volume, parent_path, first, listed.0, listed.1);
        match listed.1 {
            Ok(names) if names.contains(name) => {
                let (ino, paths) = numbered(listed.0.paths, path);
                let middle = Volume { paths, ..listed.0 };
                lemma_file_attributes(
                    manner,
                    middle,
                    ino,
                    path,
                    Refusal::InputOutput,
                    rest,
                    after,
                    result,
                );
                let whole = file_attributes(manner, middle, ino, path, Refusal::InputOutput);
                if !middle.pending.contains_key(ino) && !middle.sizes.contains_key(path) {
                    let reading = volume::file(manner, middle, path);
                    let (_, _, last, _) = lemma_first(reading, whole, rest, (after, result));
                    assert(last.len() == 0);
                }
            },
            _ => {
                assert(rest.len() == 0);
            },
        }
    }
    lemma_consistent(volume, after);
}

/// Asking about a file keeps the volume consistent, keeps all that was read, and
/// changes no number and no new file.
pub proof fn law_getattr_keeps_the_volume(
    manner: Manner,
    volume: Volume,
    ino: u64,
    log: Seq<Event>,
    after: Volume,
    result: Result<Attributes, Refusal>,
)
    requires
        consistent(volume),
        follows(log, volume::getattr(manner, volume, ino), (after, result)),
    ensures
        consistent(after),
        after.paths == volume.paths,
        after.pending == volume.pending,
        remembers(volume, after),
{
    let path = path_or_root(volume, ino);
    if !(path == "/"@ || path == "/cd"@ || path == "/nvr"@) {
        lemma_file_attributes(manner, volume, ino, path, Refusal::NotFound, log, after, result);
    }
    lemma_extends_itself(volume.paths);
    lemma_consistent(volume, after);
}

/// Reading keeps the volume consistent, keeps all that was read, and changes no
/// number and no new file.
pub proof fn law_read_keeps_the_volume(
    manner: Manner,
    volume: Volume,
    ino: u64,
    offset: u64,
    size: u32,
    log: Seq<Event>,
    after: Volume,
    result: Result<Seq<u8>, Refusal>,
)
    requires
        consistent(volume),
        follows(log, volume::read(manner, volume, ino, offset, size), (after, result)),
    ensures
        consistent(after),
        after.paths == volume.paths,
        after.pending == volume.pending,
        remembers(volume, after),
{
    let whole = volume::read(manner, volume, ino, offset, size);
    if !volume.pending.contains_key(ino) {
        if let Some(path) = path_at(volume.paths, ino) {
            let reading = volume::file(manner, volume, path);
            let (first, read, rest, _) = lemma_first(reading, whole, log, (after, result));
            lemma_file(manner, volume, path, first, read.0, read.1);
            assert(rest.len() == 0);
        }
    }
    lemma_extends_itself(volume.paths);
    lemma_consistent(volume, after);
}

/// Creating a file keeps the volume consistent, keeps all inode numbers and all
/// that was read. If it succeeds, an empty file is staged under the number that
/// is returned, and the directory has no file of that name; else no new file is
/// changed.
pub proof fn law_create_stages_an_empty_file(
    manner: Manner,
    volume: Volume,
    parent: u64,
    name: Seq<char>,
    log: Seq<Event>,
    after: Volume,
    result: Result<Attributes, Refusal>,
)
    requires
        consistent(volume),
        volume.paths.len() < u64::MAX,
        follows(log, volume::create(manner, volume, parent, name), (after, result)),
    ensures
        consistent(after),
        extends(volume.paths, after.paths),
        remembers(volume, after),
        result is Err ==> after.pending == volume.pending,
        result matches Ok(attributes) ==> {
            &&& path_or_root(volume, parent) == "/nvr"@
            &&& proper_name(name)
            &&& !nvr_names(after).contains(name)
            &&& path_at(after.paths, attributes.ino) == Some(nvr_path(name))
            &&& after.pending == volume.pending.insert(
                attributes.ino,
                Staged { path: nvr_path(name), data: Seq::empty(), committed: false },
            )
        },
{
    let whole = volume::create(manner, volume, parent, name);
    let path = nvr_path(name);
    lemma_extends_itself(volume.paths);
    lemma_numbered(volume.paths, path);
    let refused = fixed_directory(path_or_root(volume, parent)) is Some || !proper_name(name)
        || vstd::utf8::encode_utf8(name).len() > volume::LONGEST_NAME;
    if !refused {
        let listing = volume::names(manner, volume, "/nvr"@);
        let (first, listed, rest, _) = lemma_first(listing, whole, log, (after, result));
        lemma_names(manner, volume, "/nvr"@, first, listed.0, listed.1);
        assert(rest.len() == 0);
        if result is Ok {
            let middle = Volume { pending: volume.pending, ..after };
            lemma_consistent(volume, middle);
            assert forall|handle: u64| #[trigger] after.pending.contains_key(handle) implies {
                let staged = after.pending[handle];
                &&& path_at(after.paths, handle) == Some(staged.path)
                &&& exists|name: Seq<char>| staged.path == #[trigger] nvr_path(name)
                &&& !staged.committed
            } by {
                if handle != result->Ok_0.ino {
                    assert(middle.pending.contains_key(handle));
                }
            }
        }
    }
    if result is Err {
        lemma_consistent(volume, after);
    }
}

/// A write that succeeds changes only the file that is staged under the handle,
/// and keeps the volume consistent; one that is refused changes nothing.
pub proof fn law_write_changes_one_staged_file(
    volume: Volume,
    ino: u64,
    fh: u64,
    offset: u64,
    bytes: Seq<u8>,
)
    requires
        consistent(volume),
    ensures
        ({
            let (after, result) = volume::write(volume, ino, fh, offset, bytes);
            &&& consistent(after)
            &&& result is Err ==> after == volume
            &&& result is Ok ==> {
                let handle = pending_handle(volume, fh, ino)->Some_0;
                &&& after == (Volume { pending: after.pending, ..volume })
                &&& after.pending.dom() == volume.pending.dom()
                &&& forall|other: u64|
                    other != handle && volume.pending.contains_key(other) ==> (
                    #[trigger] after.pending[other]) == volume.pending[other]
                &&& after.pending[handle].path == volume.pending[handle].path
                &&& !after.pending[handle].committed
            }
        }),
{
    let (after, result) = volume::write(volume, ino, fh, offset, bytes);
    if result is Ok {
        let handle = pending_handle(volume, fh, ino)->Some_0;
        assert(after.pending.dom() =~= volume.pending.dom());
        assert forall|other: u64| #[trigger] after.pending.contains_key(other) implies {
            let staged = after.pending[other];
            &&& path_at(after.paths, other) == Some(staged.path)
            &&& exists|name: Seq<char>| staged.path == #[trigger] nvr_path(name)
            &&& !staged.committed
        } by {
            assert(volume.pending.contains_key(other));
        }
    }
}

/// What was written to a new file is read back, without a word to the player,
/// and the rest of the file is as it was, with zeros where there was nothing.
pub proof fn law_writes_are_read_back(
    manner: Manner,
    volume: Volume,
    ino: u64,
    offset: u64,
    bytes: Seq<u8>,
    after: Volume,
    count: u32,
)
    requires
        volume.pending.contains_key(ino),
        volume::write(volume, ino, ino, offset, bytes) == (after, Ok::<u32, Refusal>(count)),
        bytes.len() <= u32::MAX,
    ensures
        count == bytes.len(),
        volume::read(manner, after, ino, offset, count) == Dialogue::Over(
            (after, Ok::<Seq<u8>, Refusal>(bytes)),
        ),
        ({
            let before = volume.pending[ino].data;
            let data = after.pending[ino].data;
            &&& data.len() == if before.len() < offset + bytes.len() {
                offset + bytes.len()
            } else {
                before.len() as int
            }
            &&& forall|i: int|
                0 <= i < data.len() && !(offset <= i < offset + bytes.len()) ==> #[trigger] data[i]
                    == if i < before.len() {
                    before[i]
                } else {
                    0
                }
        }),
{
    let data = after.pending[ino].data;
    assert(window(data, offset, count) =~= bytes);
}

/// A refused write: nothing is staged for it, or the player has the file
/// already, or the file would not fit in memory.
pub proof fn law_only_staged_files_are_written(
    volume: Volume,
    ino: u64,
    fh: u64,
    offset: u64,
    bytes: Seq<u8>,
)
    ensures
        volume::write(volume, ino, fh, offset, bytes).1 is Ok <==> {
            &&& offset + bytes.len() <= usize::MAX
            &&& pending_handle(volume, fh, ino) matches Some(handle)
                && !volume.pending[handle].committed
        },
        volume::write(volume, ino, fh, offset, bytes).1 matches Err(refusal) ==> refusal
            == if offset + bytes.len() > usize::MAX {
            Refusal::TooLarge
        } else {
            Refusal::ReadOnly
        },
{
}

/// Nothing is created or deleted outside the non-volatile memory, and the player
/// is not even asked: `/cd` is read-only, and all else is denied.
pub proof fn law_only_nvr_changes(manner: Manner, volume: Volume, parent: u64, name: Seq<char>)
    requires
        path_or_root(volume, parent) != "/nvr"@,
    ensures
        ({
            let refusal = if path_or_root(volume, parent) == "/cd"@ {
                Refusal::ReadOnly
            } else {
                Refusal::AccessDenied
            };
            &&& volume::create(manner, volume, parent, name) == Dialogue::Over(
                (volume, Err::<Attributes, Refusal>(refusal)),
            )
            &&& volume::unlink(manner, volume, parent, name) == Dialogue::Over(
                (volume, Err::<(), Refusal>(refusal)),
            )
        }),
{
}

/// A new file is transferred when it is closed, all of it and under its path. If
/// the player takes it, its contents, its size and its name are known from then
/// on; if not, nothing is. In either case it is no longer staged.
pub proof fn law_closing_transfers_the_staged_file(
    manner: Manner,
    volume: Volume,
    ino: u64,
    fh: u64,
    log: Seq<Event>,
    after: Volume,
    result: Result<(), Refusal>,
)
    requires
        consistent(volume),
        pending_handle(volume, fh, ino) is Some,
        follows(log, volume::release(manner, volume, ino, fh), (after, result)),
    ensures
        consistent(after),
        after.paths == volume.paths,
        ({
            let handle = pending_handle(volume, fh, ino)->Some_0;
            let staged = volume.pending[handle];
            &&& after.pending == volume.pending.remove(handle)
            &&& exists|cut: int, transfer: Result<(), service::Os9Failure>|
                #![trigger log.skip(cut), follows(
                    log.skip(cut),
                    service::put_file(
                        manner.settings,
                        staged.data,
                        staged.path,
                        256,
                        manner.verbose,
                    ),
                    transfer,
                )]
                {
                    &&& 0 <= cut <= log.len()
                    &&& follows(
                        log.take(cut),
                        service::os9_trace(
                            manner.verbose,
                            call_line("FUSE commit"@, staged.path),
                        ),
                        (),
                    )
                    &&& follows(
                        log.skip(cut),
                        service::put_file(
                            manner.settings,
                            staged.data,
                            staged.path,
                            256,
                            manner.verbose,
                        ),
                        transfer,
                    )
                    &&& transfer is Ok <==> result is Ok
                }
            &&& result is Ok ==> {
                &&& after.files == volume.files.insert(staged.path, staged.data)
                &&& after.sizes == volume.sizes.insert(staged.path, staged.data.len() as u64)
                &&& after.directories == volume.directories.insert("/nvr"@, nvr_names(after))
                &&& forall|name: Seq<char>| #[trigger]
                    nvr_names(after).contains(name) <==> name == volume::base_name(staged.path)
                        || nvr_names(volume).contains(name)
            }
            &&& result matches Err(refusal) ==> {
                &&& refusal == Refusal::InputOutput
                &&& after == (Volume { pending: after.pending, ..volume })
            }
        }),
{
    let handle = pending_handle(volume, fh, ino)->Some_0;
    let staged = volume.pending[handle];
    let whole = volume::release(manner, volume, ino, fh);
    let committing = volume::commit(manner, volume, handle);
    let (first, committed, rest, _) = lemma_first(committing, whole, log, (after, result));
    assert(rest.len() == 0);
    assert(log =~= first);
    let trace = service::os9_trace(manner.verbose, call_line("FUSE commit"@, staged.path));
    let (notes, _, transfer_log, next) = lemma_first(trace, committing, first, committed);
    let putting = service::put_file(
        manner.settings,
        staged.data,
        staged.path,
        256,
        manner.verbose,
    );
    let (put_log, put, last, _) = lemma_first(putting, next, transfer_log, committed);
    assert(last.len() == 0);
    assert(put_log =~= transfer_log);
    let cut = notes.len() as int;
    assert(log.take(cut) =~= notes);
    assert(log.skip(cut) =~= transfer_log);
    assert(follows(log.skip(cut), putting, put));
    assert(after.pending =~= volume.pending.remove(handle));
    assert forall|other: u64| #[trigger] after.pending.contains_key(other) implies {
        let staged = after.pending[other];
        &&& path_at(after.paths, other) == Some(staged.path)
        &&& exists|name: Seq<char>| staged.path == #[trigger] nvr_path(name)
        &&& !staged.committed
    } by {
        assert(volume.pending.contains_key(other));
    }
    if result is Ok {
        let known = nvr_names(volume);
        let name = volume::base_name(staged.path);
        let longer = known.push(name);
        assert(longer.last() == name);
        assert forall|other: Seq<char>|
            #![trigger nvr_names(after).contains(other)]
            nvr_names(after).contains(other) <==> other == name || known.contains(other) by {
            if known.contains(other) {
                let i = choose|i: int| 0 <= i < known.len() && known[i] == other;
                assert(longer[i] == other);
            }
        }
    }
}

/// A file that was transferred is read back as it was staged, without another
/// word to the player.
pub proof fn law_transferred_files_are_read_back(
    manner: Manner,
    volume: Volume,
    ino: u64,
    offset: u64,
    size: u32,
    log: Seq<Event>,
    after: Volume,
)
    requires
        consistent(volume),
        volume.pending.contains_key(ino),
        follows(
            log,
            volume::release(manner, volume, ino, ino),
            (after, Ok::<(), Refusal>(())),
        ),
    ensures
        volume::read(manner, after, ino, offset, size) == Dialogue::Over(
            (
                after,
                Ok::<Seq<u8>, Refusal>(window(volume.pending[ino].data, offset, size)),
            ),
        ),
{
    law_closing_transfers_the_staged_file(manner, volume, ino, ino, log, after, Ok(()));
}

/// Closing a file of which nothing is staged does nothing.
pub proof fn law_closing_other_files_does_nothing(
    manner: Manner,
    volume: Volume,
    ino: u64,
    fh: u64,
)
    requires
        pending_handle(volume, fh, ino) is None,
    ensures
        volume::release(manner, volume, ino, fh) == Dialogue::Over(
            (volume, Ok::<(), Refusal>(())),
        ),
{
}

/// A name that is filtered out is gone.
proof fn lemma_filtered_out(names: Seq<Seq<char>>, name: Seq<char>)
    ensures
        !without(names, name).contains(name),
        forall|other: Seq<char>|
            other != name ==> (names.contains(other) <==> #[trigger] without(names, name).contains(
                other,
            )),
    decreases names.len(),
{
    reveal(Seq::filter);
    let kept = without(names, name);
    if names.len() > 0 {
        let rest = names.drop_last();
        let last = names.last();
        let before = without(rest, name);
        lemma_filtered_out(rest, name);
        assert(names =~= rest.push(last));
        assert(kept == if last != name {
            before.push(last)
        } else {
            before
        });
        if kept.contains(name) {
            let i = choose|i: int| 0 <= i < kept.len() && kept[i] == name;
            assert(before[i] == name);
        }
        assert forall|other: Seq<char>| other != name implies (names.contains(other)
            <==> #[trigger] kept.contains(other)) by {
            if names.contains(other) {
                let i = choose|i: int| 0 <= i < names.len() && names[i] == other;
                if i < rest.len() {
                    assert(rest[i] == other);
                    assert(rest.contains(other));
                    assert(without(rest, name).contains(other));
                    let j = choose|j: int| 0 <= j < before.len() && before[j] == other;
                    assert(kept[j] == other);
                } else {
                    assert(kept[kept.len() - 1] == other);
                }
            }
            if kept.contains(other) {
                let i = choose|i: int| 0 <= i < kept.len() && kept[i] == other;
                if i < before.len() {
                    assert(before[i] == other);
                    assert(before.contains(other));
                    let j = choose|j: int| 0 <= j < rest.len() && rest[j] == other;
                    assert(names[j] == other);
                } else {
                    assert(names[names.len() - 1] == other);
                }
            }
        }
    }
}

/// Deleting a file keeps the volume consistent, keeps all inode numbers and all
/// new files. If it succeeds nothing is known of the file any more, and all
/// other files are known as before; if not, nothing changes. A file that is
/// still open is not deleted.
pub proof fn law_unlink_forgets_the_file(
    manner: Manner,
    volume: Volume,
    parent: u64,
    name: Seq<char>,
    log: Seq<Event>,
    after: Volume,
    result: Result<(), Refusal>,
)
    requires
        consistent(volume),
        follows(log, volume::unlink(manner, volume, parent, name), (after, result)),
    ensures
        consistent(after),
        after.paths == volume.paths,
        after.pending == volume.pending,
        result is Err ==> after == volume,
        result is Ok ==> {
            &&& !staged_at(volume, nvr_path(name))
            &&& after.files == volume.files.remove(nvr_path(name))
            &&& after.sizes == volume.sizes.remove(nvr_path(name))
            &&& !nvr_names(after).contains(name)
            &&& forall|other: Seq<char>|
                other != name ==> (nvr_names(volume).contains(other) <==> #[trigger] nvr_names(
                    after,
                ).contains(other))
        },
{
    let whole = volume::unlink(manner, volume, parent, name);
    let refused = fixed_directory(path_or_root(volume, parent)) is Some || !proper_name(name)
        || staged_at(volume, nvr_path(name));
    if !refused {
        let line = call_line("FUSE unlink"@, nvr_path(name));
        let trace = service::os9_trace(manner.verbose, line);
        let (_, _, rest, next) = lemma_first(trace, whole, log, (after, result));
        let deleting = service::delete_file(manner.settings, nvr_path(name), manner.verbose);
        let (_, deleted, last, _) = lemma_first(deleting, next, rest, (after, result));
        assert(last.len() == 0);
        if result is Ok {
            lemma_filtered_out(nvr_names(volume), name);
        }
    }
    lemma_extends_itself(volume.paths);
    lemma_consistent(volume, after);
}

/// A deleted file is not found any more, without a word to the player, once the
/// directory was read.
pub proof fn law_deleted_files_are_not_found(
    manner: Manner,
    volume: Volume,
    parent: u64,
    name: Seq<char>,
    log: Seq<Event>,
    after: Volume,
)
    requires
        consistent(volume),
        volume.directories.contains_key("/nvr"@),
        follows(
            log,
            volume::unlink(manner, volume, parent, name),
            (after, Ok::<(), Refusal>(())),
        ),
    ensures
        volume::lookup(manner, after, parent, name) == Dialogue::Over(
            (after, Err::<Attributes, Refusal>(Refusal::NotFound)),
        ),
{
    law_unlink_forgets_the_file(manner, volume, parent, name, log, after, Ok(()));
    lemma_unlink_parent(manner, volume, parent, name, log, after);
    lemma_not_listed(manner, after, parent, name);
}

/// Something was deleted, so it was in the non-volatile memory, and its names
/// are still known if they were.
proof fn lemma_unlink_parent(
    manner: Manner,
    volume: Volume,
    parent: u64,
    name: Seq<char>,
    log: Seq<Event>,
    after: Volume,
)
    requires
        volume.directories.contains_key("/nvr"@),
        follows(
            log,
            volume::unlink(manner, volume, parent, name),
            (after, Ok::<(), Refusal>(())),
        ),
    ensures
        path_or_root(volume, parent) == "/nvr"@,
        after.directories.contains_key("/nvr"@),
{
    let outcome = (after, Ok::<(), Refusal>(()));
    let whole = volume::unlink(manner, volume, parent, name);
    let line = call_line("FUSE unlink"@, nvr_path(name));
    let trace = service::os9_trace(manner.verbose, line);
    let (_, _, rest, next) = lemma_first(trace, whole, log, outcome);
    let deleting = service::delete_file(manner.settings, nvr_path(name), manner.verbose);
    let (_, deleted, last, _) = lemma_first(deleting, next, rest, outcome);
    assert(last.len() == 0);
}

/// A name that is not among those of the non-volatile memory is not found there.
proof fn lemma_not_listed(manner: Manner, volume: Volume, parent: u64, name: Seq<char>)
    requires
        path_or_root(volume, parent) == "/nvr"@,
        volume.directories.contains_key("/nvr"@),
        !volume.directories["/nvr"@].contains(name),
    ensures
        volume::lookup(manner, volume, parent, name) == Dialogue::Over(
            (volume, Err::<Attributes, Refusal>(Refusal::NotFound)),
        ),
{
    assert("/nvr"@ != "/"@) by {
        reveal_strlit("/");
        reveal_strlit("/nvr");
        assert("/"@.len() != "/nvr"@.len());
    }
}

/// Giving numbers to names keeps all others.
pub proof fn lemma_numbered_children(paths: Paths, path: Seq<char>, names: Seq<Seq<char>>)
    requires
        numbering(paths),
        paths.len() + names.len() < u64::MAX,
    ensures
        ({
            let (later, numbers) = numbered_children(paths, path, names);
            &&& numbering(later)
            &&& extends(paths, later)
            &&& later.len() <= paths.len() + names.len()
            &&& numbers.len() == names.len()
            &&& forall|i: int|
                0 <= i < names.len() ==> path_at(later, #[trigger] numbers[i]) == Some(
                    child(path, names[i]),
                )
        }),
    decreases names.len(),
{
    if names.len() == 0 {
        lemma_extends_itself(paths);
    } else {
        let (earlier, before) = numbered_children(paths, path, names.drop_last());
        lemma_numbered_children(paths, path, names.drop_last());
        lemma_numbered(earlier, child(path, names.last()));
        let (later, numbers) = numbered_children(paths, path, names);
        assert(later.take(paths.len() as int) =~= later.take(earlier.len() as int).take(
            paths.len() as int,
        ));
        assert forall|i: int| 0 <= i < names.len() implies path_at(
            later,
            #[trigger] numbers[i],
        ) == Some(child(path, names[i])) by {
            if i < names.len() - 1 {
                assert(numbers[i] == before[i]);
                law_numbers_stay(earlier, later, before[i]);
            }
        }
    }
}

/// Listing a directory keeps the volume consistent, keeps all inode numbers, all
/// that was read and all new files. The list is that of the directory itself, the root, and all
/// names in it, from the position that was asked for; and the number of each
/// name stands for its path.
pub proof fn law_listings_number_the_names(
    manner: Manner,
    volume: Volume,
    ino: u64,
    offset: u64,
    names: Seq<Seq<char>>,
    log: Seq<Event>,
    after: Volume,
    entries: Seq<Listed>,
)
    requires
        consistent(volume),
        names == (if path_or_root(volume, ino) == "/"@ {
            seq!["cd"@, "nvr"@]
        } else {
            after.directories[path_or_root(volume, ino)]
        }),
        volume.paths.len() + names.len() < u64::MAX,
        follows(
            log,
            volume::readdir(manner, volume, ino, offset),
            (after, Ok::<Seq<Listed>, Refusal>(entries)),
        ),
    ensures
        consistent(after),
        extends(volume.paths, after.paths),
        after.pending == volume.pending,
        remembers(volume, after),
        offset <= names.len() + 2 ==> entries.len() == names.len() + 2 - offset,
        offset > names.len() + 2 ==> entries.len() == 0,
        forall|i: int|
            0 <= i < entries.len() ==> {
                let entry = #[trigger] entries[i];
                &&& entry.next == offset + i + 1
                &&& offset + i >= 2 ==> entry.name == names[offset + i - 2] && path_at(
                    after.paths,
                    entry.ino,
                ) == Some(child(path_or_root(volume, ino), entry.name))
            },
{
    let path = path_or_root(volume, ino);
    lemma_readdir(manner, volume, ino, offset, names, log, after, entries);
    lemma_numbered_children(volume.paths, path, names);
    lemma_consistent(volume, after);
    let numbers = numbered_children(volume.paths, path, names).1;
    lemma_listing(ino, path, names, numbers, offset);
    assert forall|i: int| 0 <= i < entries.len() && offset + i >= 2 implies path_at(
        after.paths,
        (#[trigger] entries[i]).ino,
    ) == Some(child(path, entries[i].name)) by {
        assert(entries[i].ino == numbers[offset + i - 2]);
    }
}

/// A directory that cannot be listed leaves everything as it was.
pub proof fn law_failed_listings_change_nothing(
    manner: Manner,
    volume: Volume,
    ino: u64,
    offset: u64,
    log: Seq<Event>,
    after: Volume,
    refusal: Refusal,
)
    requires
        follows(
            log,
            volume::readdir(manner, volume, ino, offset),
            (after, Err::<Seq<Listed>, Refusal>(refusal)),
        ),
    ensures
        after == volume,
        refusal == Refusal::InputOutput,
        path_or_root(volume, ino) != "/"@,
{
    let path = path_or_root(volume, ino);
    let whole = volume::readdir(manner, volume, ino, offset);
    let outcome = (after, Err::<Seq<Listed>, Refusal>(refusal));
    if path == "/"@ {
        assert(log.len() == 0);
    } else {
        let reading = volume::names(manner, volume, path);
        let (first, listed, rest, _) = lemma_first(reading, whole, log, outcome);
        lemma_names(manner, volume, path, first, listed.0, listed.1);
        assert(rest.len() == 0);
    }
}

/// What a list of a directory holds.
pub proof fn lemma_listing(
    ino: u64,
    path: Seq<char>,
    names: Seq<Seq<char>>,
    numbers: Seq<u64>,
    offset: u64,
)
    requires
        names.len() + 2 < u64::MAX,
        numbers.len() == names.len(),
    ensures
        ({
            let entries = from_offset(listing(ino, path, names, numbers), offset);
            &&& offset <= names.len() + 2 ==> entries.len() == names.len() + 2 - offset
            &&& offset > names.len() + 2 ==> entries.len() == 0
            &&& forall|i: int|
                0 <= i < entries.len() ==> {
                    let entry = #[trigger] entries[i];
                    &&& entry.next == offset + i + 1
                    &&& offset + i >= 2 ==> entry.name == names[offset + i - 2] && entry.ino
                        == numbers[offset + i - 2]
                }
        }),
{
    let all = listing(ino, path, names, numbers);
    assert(all.len() == names.len() + 2);
    let entries = from_offset(all, offset);
    assert forall|i: int| 0 <= i < entries.len() implies {
        let entry = #[trigger] entries[i];
        &&& entry.next == offset + i + 1
        &&& offset + i >= 2 ==> entry.name == names[offset + i - 2] && entry.ino == numbers[offset
            + i - 2]
    } by {
        assert(entries[i] == all[offset + i]);
    }
}

/// What is left when a directory was listed.
pub proof fn lemma_readdir(
    manner: Manner,
    volume: Volume,
    ino: u64,
    offset: u64,
    names: Seq<Seq<char>>,
    log: Seq<Event>,
    after: Volume,
    entries: Seq<Listed>,
)
    requires
        names == (if path_or_root(volume, ino) == "/"@ {
            seq!["cd"@, "nvr"@]
        } else {
            after.directories[path_or_root(volume, ino)]
        }),
        follows(
            log,
            volume::readdir(manner, volume, ino, offset),
            (after, Ok::<Seq<Listed>, Refusal>(entries)),
        ),
    ensures
        ({
            let path = path_or_root(volume, ino);
            let (paths, numbers) = numbered_children(volume.paths, path, names);
            &&& after.paths == paths
            &&& after.pending == volume.pending
            &&& remembers(volume, after)
            &&& entries == from_offset(listing(ino, path, names, numbers), offset)
        }),
{
    let path = path_or_root(volume, ino);
    let whole = volume::readdir(manner, volume, ino, offset);
    let outcome = (after, Ok::<Seq<Listed>, Refusal>(entries));
    if path == "/"@ {
        assert(log.len() == 0);
    } else {
        let reading = volume::names(manner, volume, path);
        let (first, listed, rest, _) = lemma_first(reading, whole, log, outcome);
        lemma_names(manner, volume, path, first, listed.0, listed.1);
        assert(rest.len() == 0);
    }
}

/// A request of the host that can change what is remembered.
pub enum Request {
    Lookup { parent: u64, name: Seq<char> },
    Getattr { ino: u64 },
    Read { ino: u64, offset: u64, size: u32 },
    Create { parent: u64, name: Seq<char> },
    Write { ino: u64, fh: u64, offset: u64, bytes: Seq<u8> },
    Release { ino: u64, fh: u64 },
    Unlink { parent: u64, name: Seq<char> },
    Readdir { ino: u64, offset: u64 },
}

/// The request can leave `after` behind, with some answers of the player.
pub open spec fn served(manner: Manner, volume: Volume, request: Request, after: Volume) -> bool {
    match request {
        Request::Lookup { parent, name } => exists|
            log: Seq<Event>,
            result: Result<Attributes, Refusal>,
        | #[trigger]
            follows(log, volume::lookup(manner, volume, parent, name), (after, result)),
        Request::Getattr { ino } => exists|
            log: Seq<Event>,
            result: Result<Attributes, Refusal>,
        | #[trigger]
            follows(log, volume::getattr(manner, volume, ino), (after, result)),
        Request::Read { ino, offset, size } => exists|
            log: Seq<Event>,
            result: Result<Seq<u8>, Refusal>,
        | #[trigger]
            follows(log, volume::read(manner, volume, ino, offset, size), (after, result)),
        Request::Create { parent, name } => exists|
            log: Seq<Event>,
            result: Result<Attributes, Refusal>,
        | #[trigger]
            follows(log, volume::create(manner, volume, parent, name), (after, result)),
        Request::Write { ino, fh, offset, bytes } => after == volume::write(
            volume,
            ino,
            fh,
            offset,
            bytes,
        ).0,
        Request::Release { ino, fh } => exists|log: Seq<Event>, result: Result<(), Refusal>|
            #[trigger]
            follows(log, volume::release(manner, volume, ino, fh), (after, result)),
        Request::Unlink { parent, name } => exists|log: Seq<Event>, result: Result<(), Refusal>|
            #[trigger]
            follows(log, volume::unlink(manner, volume, parent, name), (after, result)),
        Request::Readdir { ino, offset } => exists|
            log: Seq<Event>,
            result: Result<Seq<Listed>, Refusal>,
        | #[trigger]
            follows(log, volume::readdir(manner, volume, ino, offset), (after, result)),
    }
}

/// The request deletes the file with this path, or closes a new file with it.
pub open spec fn touches(volume: Volume, request: Request, path: Seq<char>) -> bool {
    match request {
        Request::Unlink { parent: _, name } => nvr_path(name) == path,
        Request::Release { ino, fh } => pending_handle(volume, fh, ino) matches Some(handle)
            && volume.pending[handle].path == path,
        _ => false,
    }
}

/// A row of requests leaves `after` behind, and none of them touches the path.
pub open spec fn served_apart_from(
    manner: Manner,
    volume: Volume,
    requests: Seq<Request>,
    path: Seq<char>,
    after: Volume,
) -> bool
    decreases requests.len(),
{
    if requests.len() == 0 {
        after == volume
    } else {
        exists|middle: Volume|
            {
                &&& #[trigger] served(manner, volume, requests[0], middle)
                &&& !touches(volume, requests[0], path)
                &&& served_apart_from(manner, middle, requests.skip(1), path, after)
            }
    }
}

/// Looking a name up keeps what was read.
proof fn lemma_lookup_remembers(
    manner: Manner,
    volume: Volume,
    parent: u64,
    name: Seq<char>,
    log: Seq<Event>,
    after: Volume,
    result: Result<Attributes, Refusal>,
)
    requires
        follows(log, volume::lookup(manner, volume, parent, name), (after, result)),
    ensures
        remembers(volume, after),
{
    let whole = volume::lookup(manner, volume, parent, name);
    let parent_path = path_or_root(volume, parent);
    let path = child(parent_path, name);
    if !(parent_path == "/"@ && (name == "cd"@ || name == "nvr"@)) {
        let listing = volume::names(manner, volume, parent_path);
        let (first, listed, rest, _) = lemma_first(listing, whole, log, (after, result));
        lemma_names(manner, volume, parent_path, first, listed.0, listed.1);
        match listed.1 {
            Ok(names) if names.contains(name) => {
                let (ino, paths) = numbered(listed.0.paths, path);
                let middle = Volume { paths, ..listed.0 };
                lemma_file_attributes(
                    manner,
                    middle,
                    ino,
                    path,
                    Refusal::InputOutput,
                    rest,
                    after,
                    result,
                );
            },
            _ => {
                assert(rest.len() == 0);
            },
        }
    }
}

/// A request that does not touch a path keeps what was read from it.
proof fn lemma_served_remembers(
    manner: Manner,
    volume: Volume,
    request: Request,
    path: Seq<char>,
    after: Volume,
)
    requires
        served(manner, volume, request, after),
        !touches(volume, request, path),
        volume.files.contains_key(path),
    ensures
        after.files.contains_key(path),
        after.files[path] == volume.files[path],
{
    match request {
        Request::Lookup { parent, name } => {
            let (log, result) = choose|log: Seq<Event>, result: Result<Attributes, Refusal>|
                #[trigger]
                follows(log, volume::lookup(manner, volume, parent, name), (after, result));
            lemma_lookup_remembers(manner, volume, parent, name, log, after, result);
        },
        Request::Getattr { ino } => {
            let (log, result) = choose|log: Seq<Event>, result: Result<Attributes, Refusal>|
                #[trigger]
                follows(log, volume::getattr(manner, volume, ino), (after, result));
            let own = path_or_root(volume, ino);
            if !(own == "/"@ || own == "/cd"@ || own == "/nvr"@) {
                lemma_file_attributes(
                    manner,
                    volume,
                    ino,
                    own,
                    Refusal::NotFound,
                    log,
                    after,
                    result,
                );
            }
        },
        Request::Read { ino, offset, size } => {
            let (log, result) = choose|log: Seq<Event>, result: Result<Seq<u8>, Refusal>|
                #[trigger]
                follows(log, volume::read(manner, volume, ino, offset, size), (after, result));
            let whole = volume::read(manner, volume, ino, offset, size);
            if !volume.pending.contains_key(ino) {
                if let Some(own) = path_at(volume.paths, ino) {
                    let reading = volume::file(manner, volume, own);
                    let (first, read, rest, _) = lemma_first(
                        reading,
                        whole,
                        log,
                        (after, result),
                    );
                    lemma_file(manner, volume, own, first, read.0, read.1);
                    assert(rest.len() == 0);
                }
            }
        },
        Request::Create { parent, name } => {
            let (log, result) = choose|log: Seq<Event>, result: Result<Attributes, Refusal>|
                #[trigger]
                follows(log, volume::create(manner, volume, parent, name), (after, result));
            let whole = volume::create(manner, volume, parent, name);
            let refused = fixed_directory(path_or_root(volume, parent)) is Some || !proper_name(
                name,
            ) || vstd::utf8::encode_utf8(name).len() > volume::LONGEST_NAME;
            if !refused {
                let listing = volume::names(manner, volume, "/nvr"@);
                let (first, listed, rest, _) = lemma_first(listing, whole, log, (after, result));
                lemma_names(manner, volume, "/nvr"@, first, listed.0, listed.1);
                assert(rest.len() == 0);
            }
        },
        Request::Write { ino, fh, offset, bytes } => {},
        Request::Release { ino, fh } => {
            let (log, result) = choose|log: Seq<Event>, result: Result<(), Refusal>| #[trigger]
                follows(log, volume::release(manner, volume, ino, fh), (after, result));
            let whole = volume::release(manner, volume, ino, fh);
            if let Some(handle) = pending_handle(volume, fh, ino) {
                let staged = volume.pending[handle];
                let committing = volume::commit(manner, volume, handle);
                let (first, committed, rest, _) = lemma_first(
                    committing,
                    whole,
                    log,
                    (after, result),
                );
                assert(rest.len() == 0);
                if !staged.committed {
                    let line = call_line("FUSE commit"@, staged.path);
                    let trace = service::os9_trace(manner.verbose, line);
                    let (_, _, later, next) = lemma_first(trace, committing, first, committed);
                    let putting = service::put_file(
                        manner.settings,
                        staged.data,
                        staged.path,
                        256,
                        manner.verbose,
                    );
                    let (_, _, last, _) = lemma_first(putting, next, later, committed);
                    assert(last.len() == 0);
                }
            }
        },
        Request::Unlink { parent, name } => {
            let (log, result) = choose|log: Seq<Event>, result: Result<(), Refusal>| #[trigger]
                follows(log, volume::unlink(manner, volume, parent, name), (after, result));
            let whole = volume::unlink(manner, volume, parent, name);
            let refused = fixed_directory(path_or_root(volume, parent)) is Some || !proper_name(
                name,
            ) || staged_at(volume, nvr_path(name));
            if !refused {
                let line = call_line("FUSE unlink"@, nvr_path(name));
                let trace = service::os9_trace(manner.verbose, line);
                let (_, _, rest, next) = lemma_first(trace, whole, log, (after, result));
                let deleting = service::delete_file(
                    manner.settings,
                    nvr_path(name),
                    manner.verbose,
                );
                let (_, _, last, _) = lemma_first(deleting, next, rest, (after, result));
                assert(last.len() == 0);
            }
        },
        Request::Readdir { ino, offset } => {
            let (log, result) = choose|log: Seq<Event>, result: Result<Seq<Listed>, Refusal>|
                #[trigger]
                follows(log, volume::readdir(manner, volume, ino, offset), (after, result));
            let whole = volume::readdir(manner, volume, ino, offset);
            let own = path_or_root(volume, ino);
            if own == "/"@ {
                assert(log.len() == 0);
            } else {
                let reading = volume::names(manner, volume, own);
                let (first, listed, rest, _) = lemma_first(reading, whole, log, (after, result));
                lemma_names(manner, volume, own, first, listed.0, listed.1);
                assert(rest.len() == 0);
            }
        },
    }
}

/// What was read from a file stays known through any row of requests that
/// neither deletes that file nor closes a new one with its path: its contents are
/// there without another word to the player.
pub proof fn law_contents_are_remembered(
    manner: Manner,
    volume: Volume,
    requests: Seq<Request>,
    path: Seq<char>,
    after: Volume,
)
    requires
        volume.files.contains_key(path),
        served_apart_from(manner, volume, requests, path, after),
    ensures
        after.files.contains_key(path),
        after.files[path] == volume.files[path],
        volume::file(manner, after, path) == Dialogue::Over(
            (after, Ok::<Seq<u8>, ()>(volume.files[path])),
        ),
    decreases requests.len(),
{
    if requests.len() > 0 {
        let middle = choose|middle: Volume|
            {
                &&& #[trigger] served(manner, volume, requests[0], middle)
                &&& !touches(volume, requests[0], path)
                &&& served_apart_from(manner, middle, requests.skip(1), path, after)
            };
        lemma_served_remembers(manner, volume, requests[0], path, middle);
        law_contents_are_remembered(manner, middle, requests.skip(1), path, after);
    }
}

/// A file that could not be read leaves nothing behind: it is asked for anew.
pub proof fn law_failed_reads_are_not_remembered(
    manner: Manner,
    volume: Volume,
    path: Seq<char>,
    log: Seq<Event>,
    after: Volume,
)
    requires
        follows(log, volume::file(manner, volume, path), (after, Err::<Seq<u8>, ()>(()))),
    ensures
        after == volume,
        !after.files.contains_key(path),
{
    lemma_file(manner, volume, path, log, after, Err(()));
}

} // verus!
