//! What the host is told of a mounted player.

use vstd::prelude::*;
use vstd::utf8::encode_utf8;

use crate::dialogue::{follows, Dialogue};
use crate::line::Event;
use crate::record::lemma_first;
use crate::service;
use crate::service::{call_line, Os9Failure};
use crate::table::{known, number_of, numbered, only_root, path_at, Paths};
use crate::volume;
use crate::volume::{
    attributes, base_name, child, file_attributes, from_offset, listing, numbered_children,
    nvr_names, nvr_path, path_or_root, pending_handle, proper_name, staged_at, window,
    with_committed, Attributes, Listed, Manner, Refusal, Volume,
};
use crate::volume_laws::{
    consistent, law_listings_number_the_names, law_lookup_keeps_the_volume, law_numbers_stay,
    lemma_file, lemma_file_attributes, lemma_names, lemma_numbered, lemma_numbered_children,
    lemma_readdir,
};

verus! {

/// The host is told of a directory or of a file with this number and size: a
/// directory is open to all for reading and searching, a file for reading, and
/// both can be changed by their owner; the blocks are those of 512 bytes that
/// the size takes.
pub open spec fn tells(found: Attributes, ino: u64, directory: bool, size: int) -> bool {
    &&& found.ino == ino
    &&& found.directory == directory
    &&& found.size == size
    &&& directory ==> found.perm == 0o755
    &&& !directory ==> found.perm == 0o644
    &&& size <= found.blocks * 512 < size + 512
    &&& found.nlink == 1
    &&& found.rdev == 0
    &&& found.blksize == 256
    &&& found.flags == 0
}

/// Attributes tell of what they were made for.
pub proof fn law_attributes_tell(ino: u64, directory: bool, size: u64)
    ensures
        tells(attributes(ino, directory, size), ino, directory, size as int),
{
}

/// The paths that are directories of every mounted player.
pub open spec fn always_directory(path: Seq<char>) -> bool {
    path == "/"@ || path == "/cd"@ || path == "/nvr"@
}

/// The root, `/cd` and `/nvr` are directories of size zero: asking about them is
/// answered at once, without a word to the player, and changes nothing. A number
/// that was never given out stands for the root.
pub proof fn law_directories_are_told_at_once(manner: Manner, volume: Volume, ino: u64)
    requires
        match path_at(volume.paths, ino) {
            Some(path) => path == "/"@ || path == "/cd"@ || path == "/nvr"@,
            None => true,
        },
    ensures
        volume::getattr(manner, volume, ino) matches Dialogue::Over((after, Ok(found)))
            && after == volume && tells(found, ino, true, 0),
{
}

/// Everything else is a file. A new file that is open is as long as what was
/// written to it; a file whose size is known is told without a word to the
/// player; any other is read for it, and is as long as what was read. If it
/// cannot be read it is said not to be there.
pub proof fn law_files_are_told(
    manner: Manner,
    volume: Volume,
    ino: u64,
    path: Seq<char>,
    log: Seq<Event>,
    after: Volume,
    result: Result<Attributes, Refusal>,
)
    requires
        path_at(volume.paths, ino) == Some(path),
        !(path == "/"@ || path == "/cd"@ || path == "/nvr"@),
        follows(log, volume::getattr(manner, volume, ino), (after, result)),
        forall|handle: u64| #[trigger]
            volume.pending.contains_key(handle) ==> volume.pending[handle].data.len() <= u64::MAX,
        forall|other: Seq<char>| #[trigger]
            after.files.contains_key(other) ==> after.files[other].len() <= u64::MAX,
    ensures
        result matches Ok(found) ==> told_of_file(found, volume, after, ino, path),
        result matches Err(refusal) ==> {
            &&& refusal == Refusal::NotFound
            &&& after == volume
            &&& !volume.pending.contains_key(ino)
            &&& !volume.sizes.contains_key(path)
            &&& !volume.files.contains_key(path)
        },
        volume.pending.contains_key(ino) || volume.sizes.contains_key(path)
            || volume.files.contains_key(path) ==> log.len() == 0 && result is Ok,
{
    lemma_told(manner, volume, ino, path, Refusal::NotFound, log, after, result);
}

/// What the host is told of a file.
pub open spec fn told_of_file(
    found: Attributes,
    volume: Volume,
    after: Volume,
    ino: u64,
    path: Seq<char>,
) -> bool {
    if volume.pending.contains_key(ino) {
        tells(found, ino, false, volume.pending[ino].data.len() as int)
    } else if volume.sizes.contains_key(path) {
        tells(found, ino, false, volume.sizes[path] as int)
    } else {
        after.files.contains_key(path) && tells(
            found,
            ino,
            false,
            after.files[path].len() as int,
        )
    }
}

/// Asking about a file.
proof fn lemma_told(
    manner: Manner,
    volume: Volume,
    ino: u64,
    path: Seq<char>,
    unreadable: Refusal,
    log: Seq<Event>,
    after: Volume,
    result: Result<Attributes, Refusal>,
)
    requires
        follows(log, file_attributes(manner, volume, ino, path, unreadable), (after, result)),
        forall|handle: u64| #[trigger]
            volume.pending.contains_key(handle) ==> volume.pending[handle].data.len() <= u64::MAX,
        forall|other: Seq<char>| #[trigger]
            after.files.contains_key(other) ==> after.files[other].len() <= u64::MAX,
    ensures
        result matches Ok(found) ==> told_of_file(found, volume, after, ino, path),
        result matches Err(refusal) ==> {
            &&& refusal == unreadable
            &&& after == volume
            &&& !volume.pending.contains_key(ino)
            &&& !volume.sizes.contains_key(path)
            &&& !volume.files.contains_key(path)
        },
        volume.pending.contains_key(ino) || volume.sizes.contains_key(path)
            || volume.files.contains_key(path) ==> log.len() == 0 && result is Ok,
        result matches Ok(found) ==> file_attributes(manner, after, ino, path, unreadable)
            == Dialogue::Over((after, Ok::<Attributes, Refusal>(found))),
{
    let whole = file_attributes(manner, volume, ino, path, unreadable);
    if !volume.pending.contains_key(ino) && !volume.sizes.contains_key(path) {
        let reading = volume::file(manner, volume, path);
        let (first, read, rest, _) = lemma_first(reading, whole, log, (after, result));
        lemma_file(manner, volume, path, first, read.0, read.1);
        assert(rest.len() == 0);
        assert(after == read.0);
        if volume.files.contains_key(path) {
            assert(reading == Dialogue::Over(
                (volume, Ok::<Seq<u8>, ()>(volume.files[path])),
            ));
            assert(first.len() == 0);
            assert(log =~= first + rest);
        }
    }
}

/// `cd` and `nvr` are found in the root at once, as directories, without a word
/// to the player.
pub proof fn law_directories_are_found_at_once(
    manner: Manner,
    volume: Volume,
    parent: u64,
    name: Seq<char>,
)
    requires
        consistent(volume),
        volume.paths.len() < u64::MAX,
        path_or_root(volume, parent) == "/"@,
        name == "cd"@ || name == "nvr"@,
    ensures
        volume::lookup(manner, volume, parent, name) matches Dialogue::Over((after, Ok(found)))
            && after == (Volume { paths: after.paths, ..volume }) && tells(
            found,
            found.ino,
            true,
            0,
        ) && path_at(after.paths, found.ino) == Some("/"@ + name) && volume::getattr(
            manner,
            after,
            found.ino,
        ) == Dialogue::Over((after, Ok::<Attributes, Refusal>(found))),
{
    lemma_numbered(volume.paths, "/"@ + name);
    reveal_strlit("/");
    reveal_strlit("cd");
    reveal_strlit("nvr");
    reveal_strlit("/cd");
    reveal_strlit("/nvr");
    assert("/"@ + "cd"@ =~= "/cd"@);
    assert("/"@ + "nvr"@ =~= "/nvr"@);
}

/// What a name is found to be, asking about its number tells again, word for
/// word and without a word to the player. A name is found if and only if it is
/// in the directory; what is not one of the fixed directories is a file.
pub proof fn law_found_names_are_told_again(
    manner: Manner,
    volume: Volume,
    parent: u64,
    name: Seq<char>,
    log: Seq<Event>,
    after: Volume,
    result: Result<Attributes, Refusal>,
)
    requires
        consistent(volume),
        volume.paths.len() < u64::MAX,
        follows(log, volume::lookup(manner, volume, parent, name), (after, result)),
        !always_directory(child(path_or_root(volume, parent), name)),
        forall|handle: u64| #[trigger]
            volume.pending.contains_key(handle) ==> volume.pending[handle].data.len() <= u64::MAX,
        forall|other: Seq<char>| #[trigger]
            after.files.contains_key(other) ==> after.files[other].len() <= u64::MAX,
    ensures
        ({
            let parent_path = path_or_root(volume, parent);
            let path = child(parent_path, name);
            &&& result matches Ok(found) ==> {
                &&& after.directories.contains_key(parent_path)
                &&& after.directories[parent_path].contains(name)
                &&& path_at(after.paths, found.ino) == Some(path)
                &&& told_of_file(
                    found,
                    (Volume { sizes: after.sizes, ..volume }),
                    after,
                    found.ino,
                    path,
                )
                &&& volume::getattr(manner, after, found.ino) == Dialogue::Over(
                    (after, Ok::<Attributes, Refusal>(found)),
                )
            }
            &&& result matches Err(refusal) ==> {
                ||| refusal == Refusal::InputOutput && after.directories.contains_key(parent_path)
                    && after.directories[parent_path].contains(name)
                ||| refusal == Refusal::NotFound && (after.directories.contains_key(parent_path)
                    ==> !after.directories[parent_path].contains(name))
            }
        }),
{
    reveal_strlit("/");
    reveal_strlit("cd");
    reveal_strlit("nvr");
    reveal_strlit("/cd");
    reveal_strlit("/nvr");
    assert("/"@ + "cd"@ =~= "/cd"@);
    assert("/"@ + "nvr"@ =~= "/nvr"@);
    law_lookup_keeps_the_volume(manner, volume, parent, name, log, after, result);
    let whole = volume::lookup(manner, volume, parent, name);
    let parent_path = path_or_root(volume, parent);
    let path = child(parent_path, name);
    let names_read = volume::names(manner, volume, parent_path);
    let (first, listed, rest, _) = lemma_first(names_read, whole, log, (after, result));
    lemma_names(manner, volume, parent_path, first, listed.0, listed.1);
    lemma_names_err(manner, volume, parent_path, first, listed.0, listed.1);
    match listed.1 {
        Ok(names) if names.contains(name) => {
            let (ino, paths) = numbered(listed.0.paths, path);
            let middle = Volume { paths, ..listed.0 };
            lemma_file_attributes(
                manner,
                middle,
                ino,
                path,
                Refusal::InputOutput,
                rest,
                after,
                result,
            );
            lemma_told(manner, middle, ino, path, Refusal::InputOutput, rest, after, result);
            lemma_attributes_number(
                manner,
                middle,
                ino,
                path,
                Refusal::InputOutput,
                rest,
                after,
                result,
            );
            if let Ok(found) = result {
                assert(found.ino == ino);
                lemma_same_attributes(manner, after, ino, path, found);
            }
        },
        _ => {
            assert(rest.len() == 0);
        },
    }
}

/// A directory that cannot be read is not remembered.
proof fn lemma_names_err(
    manner: Manner,
    volume: Volume,
    path: Seq<char>,
    log: Seq<Event>,
    after: Volume,
    result: Result<Seq<Seq<char>>, ()>,
)
    requires
        follows(log, volume::names(manner, volume, path), (after, result)),
    ensures
        result is Err ==> after == volume && !volume.directories.contains_key(path),
{
    lemma_names(manner, volume, path, log, after, result);
}

/// What is told of a file has its number.
proof fn lemma_attributes_number(
    manner: Manner,
    volume: Volume,
    ino: u64,
    path: Seq<char>,
    unreadable: Refusal,
    log: Seq<Event>,
    after: Volume,
    result: Result<Attributes, Refusal>,
)
    requires
        follows(log, file_attributes(manner, volume, ino, path, unreadable), (after, result)),
    ensures
        result matches Ok(found) ==> found.ino == ino,
        after.directories == volume.directories,
{
    lemma_file_attributes(manner, volume, ino, path, unreadable, log, after, result);
    let whole = file_attributes(manner, volume, ino, path, unreadable);
    if !volume.pending.contains_key(ino) && !volume.sizes.contains_key(path) {
        let reading = volume::file(manner, volume, path);
        let (_, _, rest, _) = lemma_first(reading, whole, log, (after, result));
        assert(rest.len() == 0);
    }
}

/// Success does not depend on what is said when a file cannot be read.
proof fn lemma_same_attributes(
    manner: Manner,
    volume: Volume,
    ino: u64,
    path: Seq<char>,
    found: Attributes,
)
    requires
        file_attributes(manner, volume, ino, path, Refusal::InputOutput) == Dialogue::Over(
            (volume, Ok::<Attributes, Refusal>(found)),
        ),
        volume.pending.contains_key(ino) || volume.sizes.contains_key(path)
            || volume.files.contains_key(path),
    ensures
        file_attributes(manner, volume, ino, path, Refusal::NotFound) == Dialogue::Over(
            (volume, Ok::<Attributes, Refusal>(found)),
        ),
{
}

/// Whatever a listing shows as a directory, asking about its number tells to be
/// one; in the root these are `cd` and `nvr`. The first two entries are the
/// directory itself and the root. In every other directory the names are files.
pub proof fn law_listed_directories_are_told(
    manner: Manner,
    volume: Volume,
    ino: u64,
    offset: u64,
    names: Seq<Seq<char>>,
    log: Seq<Event>,
    after: Volume,
    entries: Seq<Listed>,
    index: int,
)
    requires
        consistent(volume),
        names == (if path_or_root(volume, ino) == "/"@ {
            seq!["cd"@, "nvr"@]
        } else {
            after.directories[path_or_root(volume, ino)]
        }),
        volume.paths.len() + names.len() < u64::MAX,
        follows(
            log,
            volume::readdir(manner, volume, ino, offset),
            (after, Ok::<Seq<Listed>, Refusal>(entries)),
        ),
        0 <= index < entries.len(),
    ensures
        ({
            let entry = entries[index];
            let path = path_or_root(volume, ino);
            &&& offset + index == 0 ==> entry.ino == ino && entry.name == "."@ && entry.directory
            &&& offset + index == 1 ==> entry.ino == 1 && entry.name == ".."@ && entry.directory
            &&& offset + index >= 2 ==> (entry.directory <==> path == "/"@)
            &&& entry.directory && (offset + index == 0 ==> always_directory(path)) ==> (
            volume::getattr(manner, after, entry.ino) matches Dialogue::Over((same, Ok(found)))
                && same == after && tells(found, entry.ino, true, 0))
        }),
{
    let path = path_or_root(volume, ino);
    law_listings_number_the_names(
        manner,
        volume,
        ino,
        offset,
        names,
        log,
        after,
        entries,
    );
    lemma_readdir(manner, volume, ino, offset, names, log, after, entries);
    let numbers = numbered_children(volume.paths, path, names).1;
    lemma_numbered_children(volume.paths, path, names);
    let all = listing(ino, path, names, numbers);
    assert(entries == from_offset(all, offset));
    assert(entries[index] == all[offset + index]);
    reveal_strlit("/");
    reveal_strlit("cd");
    reveal_strlit("nvr");
    reveal_strlit("/cd");
    reveal_strlit("/nvr");
    assert("/"@ + "cd"@ =~= "/cd"@);
    assert("/"@ + "nvr"@ =~= "/nvr"@);
    if offset + index == 0 {
        if path_at(volume.paths, ino) is Some {
            law_numbers_stay(volume.paths, after.paths, ino);
        } else {
            lemma_unnumbered(volume.paths, path, names, ino);
        }
    }
}

/// A number that was not given out is not given to the names of the root unless
/// it is the next one.
proof fn lemma_unnumbered(paths: Paths, path: Seq<char>, names: Seq<Seq<char>>, number: u64)
    requires
        path_at(paths, number) is None,
        path == "/"@,
        names == seq!["cd"@, "nvr"@],
        paths.len() + 2 < u64::MAX,
    ensures
        match path_at(numbered_children(paths, path, names).0, number) {
            Some(other) => other == "/cd"@ || other == "/nvr"@,
            None => true,
        },
{
    reveal_with_fuel(numbered_children, 3);
    reveal_strlit("/");
    reveal_strlit("cd");
    reveal_strlit("nvr");
    reveal_strlit("/cd");
    reveal_strlit("/nvr");
    assert("/"@ + "cd"@ =~= "/cd"@);
    assert("/"@ + "nvr"@ =~= "/nvr"@);
    assert(names.drop_last() =~= seq!["cd"@]);
    assert(names.drop_last().drop_last() =~= Seq::empty());
    let one = numbered(paths, "/cd"@).1;
    let two = numbered(one, "/nvr"@).1;
    assert(numbered_children(paths, path, names.drop_last().drop_last()).0 == paths);
    assert(numbered_children(paths, path, names.drop_last()).0 == one);
    assert(numbered_children(paths, path, names).0 == two);
}

/// A read gets what is in the file from the position on, as much as was asked
/// for or as there is.
pub proof fn law_reads_get_what_is_there(data: Seq<u8>, offset: u64, size: u32, index: int)
    ensures
        ({
            let part = window(data, offset, size);
            &&& offset >= data.len() ==> part.len() == 0
            &&& offset < data.len() && offset + size <= data.len() ==> part.len() == size
            &&& offset < data.len() && offset + size > data.len() ==> part.len() == data.len()
                - offset
            &&& 0 <= index < part.len() ==> part[index] == data[offset + index]
        }),
{
}

/// A read of a file that cannot be read says that it is not there; so does one of
/// a number that was never given out. A file that is open for writing is read as
/// it was written so far.
pub proof fn law_reads_are_answered(
    manner: Manner,
    volume: Volume,
    ino: u64,
    offset: u64,
    size: u32,
    log: Seq<Event>,
    after: Volume,
    result: Result<Seq<u8>, Refusal>,
)
    requires
        follows(log, volume::read(manner, volume, ino, offset, size), (after, result)),
    ensures
        result matches Ok(bytes) ==> {
            let data = if volume.pending.contains_key(ino) {
                volume.pending[ino].data
            } else {
                after.files[path_at(after.paths, ino)->Some_0]
            };
            &&& volume.pending.contains_key(ino) || (path_at(volume.paths, ino) is Some
                && after.files.contains_key(path_at(volume.paths, ino)->Some_0))
            &&& bytes == window(data, offset, size)
        },
        result matches Err(refusal) ==> {
            &&& refusal == Refusal::NotFound
            &&& after == volume
            &&& !volume.pending.contains_key(ino)
            &&& path_at(volume.paths, ino) matches Some(path) ==> !volume.files.contains_key(path)
        },
{
    if !volume.pending.contains_key(ino) {
        if let Some(path) = path_at(volume.paths, ino) {
            let whole = volume::read(manner, volume, ino, offset, size);
            let reading = volume::file(manner, volume, path);
            let (first, read, rest, _) = lemma_first(reading, whole, log, (after, result));
            lemma_file(manner, volume, path, first, read.0, read.1);
            assert(rest.len() == 0);
        }
    }
}

/// A new file is opened by its number as long as it is staged; any other file
/// only for reading.
pub proof fn law_files_are_opened(volume: Volume, ino: u64, read_only: bool)
    ensures
        volume::open_file(volume, ino, read_only) == if volume.pending.contains_key(ino) {
            Ok::<u64, Refusal>(ino)
        } else if read_only {
            Ok::<u64, Refusal>(0)
        } else {
            Err::<u64, Refusal>(Refusal::ReadOnly)
        },
{
}

/// A request is about the new file with the handle, or else about the one with
/// the number.
pub proof fn law_requests_are_about_new_files(volume: Volume, fh: u64, ino: u64)
    ensures
        pending_handle(volume, fh, ino) matches Some(handle) ==> volume.pending.contains_key(
            handle,
        ) && (handle == fh || handle == ino && !volume.pending.contains_key(fh)),
        pending_handle(volume, fh, ino) is None ==> !volume.pending.contains_key(fh)
            && !volume.pending.contains_key(ino),
{
}

/// A path known before keeps its number, and a new one gets the next number;
/// the root has number 1, and the first path after it gets number 3.
pub proof fn law_numbers_are_given_in_order(paths: Paths, path: Seq<char>)
    requires
        paths.len() < u64::MAX,
    ensures
        known(paths, path) ==> {
            &&& path_at(paths, numbered(paths, path).0) == Some(path)
            &&& numbered(paths, path).1 == paths
        },
        !known(paths, path) ==> {
            &&& numbered(paths, path).0 == paths.len()
            &&& numbered(paths, path).1 == paths.push(Some(path))
        },
        path_at(only_root(), 1) == Some("/"@),
        forall|number: u64| number != 1 ==> #[trigger] path_at(only_root(), number) is None,
        only_root().len() == 3,
{
    if known(paths, path) {
        let number = number_of(paths, path);
        assert(paths[number] == Some(path));
    }
}

/// The path of a name stands below that of its directory, and the name is the
/// last part of it.
pub proof fn law_paths_end_with_the_name(path: Seq<char>, name: Seq<char>)
    requires
        !name.contains('/'),
    ensures
        path == "/"@ ==> child(path, name) == seq!['/'] + name,
        path != "/"@ ==> child(path, name) == path + seq!['/'] + name,
        nvr_path(name) == child("/nvr"@, name),
        base_name(child(path, name)) == name,
{
    reveal_strlit("/");
    reveal_strlit("/nvr");
    reveal_strlit("/nvr/");
    assert("/"@ =~= seq!['/']);
    assert("/nvr/"@ =~= "/nvr"@ + "/"@);
    assert(nvr_path(name) =~= "/nvr"@ + "/"@ + name);
    let front = if path == "/"@ {
        Seq::<char>::empty()
    } else {
        path
    };
    assert(child(path, name) =~= front + seq!['/'] + name);
    lemma_base_name(front, name);
}

/// The last part of a path is what stands behind its last slash.
proof fn lemma_base_name(front: Seq<char>, name: Seq<char>)
    requires
        !name.contains('/'),
    ensures
        base_name(front + seq!['/'] + name) == name,
    decreases name.len(),
{
    let path = front + seq!['/'] + name;
    if name.len() == 0 {
        assert(path.last() == '/');
        assert(name =~= Seq::empty());
    } else {
        assert(path.last() == name.last());
        assert(name.contains(name.last()));
        assert forall|i: int| 0 <= i < name.len() - 1 implies name.drop_last()[i] != '/' by {
            assert(name.contains(name[i]));
        }
        assert(!name.drop_last().contains('/'));
        lemma_base_name(front, name.drop_last());
        assert(path.drop_last() =~= front + seq!['/'] + name.drop_last());
        assert(name.drop_last().push(name.last()) =~= name);
    }
}

/// A name that cannot be one is refused at once, without a word to the player:
/// an empty one, the names of the directory itself and of the one above, and one
/// with a slash. For a new file, so is one of more than 28 bytes.
pub proof fn law_improper_names_are_refused(
    manner: Manner,
    volume: Volume,
    parent: u64,
    name: Seq<char>,
)
    requires
        path_or_root(volume, parent) == "/nvr"@,
    ensures
        ({
            let improper = name.len() == 0 || name == "."@ || name == ".."@ || name.contains('/');
            &&& improper ==> volume::create(manner, volume, parent, name) == Dialogue::Over(
                (volume, Err::<Attributes, Refusal>(Refusal::InvalidName)),
            )
            &&& improper ==> volume::unlink(manner, volume, parent, name) == Dialogue::Over(
                (volume, Err::<(), Refusal>(Refusal::InvalidName)),
            )
            &&& !improper && encode_utf8(name).len() > 28 ==> volume::create(
                manner,
                volume,
                parent,
                name,
            ) == Dialogue::Over((volume, Err::<Attributes, Refusal>(Refusal::NameTooLong)))
            &&& !improper && staged_at(volume, "/nvr/"@ + name) ==> volume::unlink(
                manner,
                volume,
                parent,
                name,
            ) == Dialogue::Over((volume, Err::<(), Refusal>(Refusal::Busy)))
        }),
{
    reveal_strlit("/cd");
    reveal_strlit("/nvr");
    assert("/cd"@.len() != "/nvr"@.len());
}

/// A proper name that is not too long is refused for a new file only if the
/// directory holds it, or if the directory cannot be read; otherwise the host is
/// told of an empty file, which is staged under its number.
pub proof fn law_creation_is_answered(
    manner: Manner,
    volume: Volume,
    parent: u64,
    name: Seq<char>,
    log: Seq<Event>,
    after: Volume,
    result: Result<Attributes, Refusal>,
)
    requires
        consistent(volume),
        volume.paths.len() < u64::MAX,
        path_or_root(volume, parent) == "/nvr"@,
        proper_name(name),
        encode_utf8(name).len() <= 28,
        follows(log, volume::create(manner, volume, parent, name), (after, result)),
    ensures
        result matches Ok(found) ==> {
            &&& tells(found, found.ino, false, 0)
            &&& after.directories.contains_key("/nvr"@)
            &&& !after.directories["/nvr"@].contains(name)
            &&& after.pending.contains_key(found.ino)
            &&& after.pending[found.ino].path == "/nvr/"@ + name
            &&& after.pending[found.ino].data.len() == 0
            &&& !after.pending[found.ino].committed
            &&& path_at(after.paths, found.ino) == Some("/nvr/"@ + name)
        },
        result matches Err(refusal) ==> {
            ||| refusal == Refusal::Exists && after.directories.contains_key("/nvr"@)
                && after.directories["/nvr"@].contains(name)
            ||| refusal == Refusal::InputOutput && !after.directories.contains_key("/nvr"@)
        },
{
    reveal_strlit("/cd");
    reveal_strlit("/nvr");
    assert("/cd"@.len() != "/nvr"@.len());
    let whole = volume::create(manner, volume, parent, name);
    let names_read = volume::names(manner, volume, "/nvr"@);
    let (first, listed, rest, _) = lemma_first(names_read, whole, log, (after, result));
    lemma_names(manner, volume, "/nvr"@, first, listed.0, listed.1);
    assert(rest.len() == 0);
    lemma_numbered(volume.paths, nvr_path(name));
}

/// A file is deleted on the player exactly if it is said to be; if the player does
/// not do that, nothing is forgotten.
pub proof fn law_deletion_is_answered(
    manner: Manner,
    volume: Volume,
    parent: u64,
    name: Seq<char>,
    log: Seq<Event>,
    after: Volume,
    result: Result<(), Refusal>,
)
    requires
        path_or_root(volume, parent) == "/nvr"@,
        proper_name(name),
        !staged_at(volume, "/nvr/"@ + name),
        follows(log, volume::unlink(manner, volume, parent, name), (after, result)),
    ensures
        result matches Err(refusal) ==> refusal == Refusal::InputOutput && after == volume,
        exists|cut: int, deleted: Result<(), Os9Failure>|
            #![trigger log.skip(cut), follows(
                log.skip(cut),
                service::delete_file(manner.settings, "/nvr/"@ + name, manner.verbose),
                deleted,
            )]
            {
                &&& 0 <= cut <= log.len()
                &&& manner.verbose == (cut > 0)
                &&& follows(
                    log.skip(cut),
                    service::delete_file(manner.settings, "/nvr/"@ + name, manner.verbose),
                    deleted,
                )
                &&& deleted is Ok <==> result is Ok
            },
{
    reveal_strlit("/cd");
    reveal_strlit("/nvr");
    assert("/cd"@.len() != "/nvr"@.len());
    let whole = volume::unlink(manner, volume, parent, name);
    let path = nvr_path(name);
    let trace = service::os9_trace(manner.verbose, call_line("FUSE unlink"@, path));
    let (first, _, rest, next) = lemma_first(trace, whole, log, (after, result));
    let deleting = service::delete_file(manner.settings, path, manner.verbose);
    let (second, deleted, last, _) = lemma_first(deleting, next, rest, (after, result));
    assert(last.len() == 0);
    assert(second =~= rest);
    assert(log.skip(first.len() as int) =~= rest);
    if manner.verbose {
        assert(first.len() > 0) by {
            if first.len() == 0 {
                assert(trace is Turn);
            }
        }
    } else {
        assert(first.len() == 0);
    }
}

/// A file that was transferred is listed once, behind the names that were known
/// before; those stay as they are.
pub proof fn law_transferred_files_are_listed_once(volume: Volume, handle: u64)
    ensures
        ({
            let before = nvr_names(volume);
            let after = nvr_names(with_committed(volume, handle));
            let name = base_name(volume.pending[handle].path);
            &&& after.take(before.len() as int) == before
            &&& after.len() == if before.contains(name) {
                before.len()
            } else {
                before.len() + 1
            }
            &&& after.contains(name)
            &&& before.no_duplicates() ==> after.no_duplicates()
        }),
{
    let before = nvr_names(volume);
    let after = nvr_names(with_committed(volume, handle));
    let name = base_name(volume.pending[handle].path);
    assert(after.take(before.len() as int) =~= before);
    if !before.contains(name) {
        assert(after.last() == name);
        if before.no_duplicates() {
            assert forall|i: int, j: int|
                0 <= i < after.len() && 0 <= j < after.len() && i != j implies after[i]
                != after[j] by {
                assert(i < before.len() ==> before.contains(before[i]));
                assert(j < before.len() ==> before.contains(before[j]));
            }
        }
    }
}

} // verus!
