//! What a mounted player shows on an error-free line, if it does everything right:
//! the files and directories that it has.

use vstd::prelude::*;
use vstd::utf8::encode_utf8;

use crate::directory::{names_in, records};
use crate::mount_laws::tells;
use crate::service;
use crate::service::{call_line, Os9Failure};
use crate::table::{numbered, path_at};
use crate::volume;
use crate::volume::{
    child, file_attributes, from_offset, listing, numbered_children, path_or_root, pending_handle,
    proper_name, staged_at, with_directory, with_file, with_sizes, Attributes, Listed, Manner,
    Refusal, Volume,
};
use crate::world::{idle, lemma_play, play, World};
use crate::world_directories::law_directories_can_be_read;
use crate::world_files::{
    at_rest, law_files_can_be_deleted, law_files_can_be_got, law_files_can_be_put,
    lemma_play_os9_trace, proper_path,
};

verus! {

/// Nothing is under way, and nothing is open on the player.
pub open spec fn quiet(world: World) -> bool {
    idle(world) && at_rest(world.player)
}

/// The player has a file with this path.
pub open spec fn has_file(world: World, path: Seq<char>) -> bool {
    world.player.files.contains_key(encode_utf8(path))
}

/// What it holds.
pub open spec fn contents(world: World, path: Seq<char>) -> Seq<u8> {
    world.player.files[encode_utf8(path)]
}

/// The player has a directory with this path.
pub open spec fn has_directory(world: World, path: Seq<char>) -> bool {
    world.player.directories.contains_key(encode_utf8(path))
}

/// The data of it.
pub open spec fn entries_of(world: World, path: Seq<char>) -> Seq<u8> {
    world.player.directories[encode_utf8(path)]
}

/// The player has the same files and directories in both worlds.
pub open spec fn unchanged(before: World, now: World) -> bool {
    now.player.files == before.player.files && now.player.directories
        == before.player.directories
}

/// What a player has at a path fits in memory.
pub open spec fn fits(world: World, path: Seq<char>) -> bool {
    &&& has_file(world, path) ==> contents(world, path).len() <= usize::MAX
    &&& has_directory(world, path) ==> entries_of(world, path).len() <= usize::MAX
}

/// Reading a directory that was not read before.
pub proof fn lemma_play_names(manner: Manner, volume: Volume, path: Seq<char>, world: World)
    requires
        quiet(world),
        proper_path(path),
        fits(world, path),
        !volume.directories.contains_key(path),
    ensures
        ({
            let (outcome, now) = play(volume::names(manner, volume, path), world);
            &&& quiet(now)
            &&& unchanged(world, now)
            &&& outcome == if has_directory(world, path) {
                (
                    with_directory(volume, path, entries_of(world, path)),
                    Ok::<Seq<Seq<char>>, ()>(names_in(entries_of(world, path))),
                )
            } else {
                (volume, Err::<Seq<Seq<char>>, ()>(()))
            }
        }),
{
    let line = call_line("FUSE readdir"@, path);
    let reading = service::read_directory(manner.settings, path, 256, manner.verbose);
    lemma_play_os9_trace(manner.verbose, line, world);
    lemma_play::<(), (Volume, Result<Seq<Seq<char>>, ()>)>(
        service::os9_trace(manner.verbose, line),
        world,
    );
    law_directories_can_be_read(manner.settings, path, 256, manner.verbose, world);
    lemma_play::<Result<Seq<u8>, Os9Failure>, (Volume, Result<Seq<Seq<char>>, ()>)>(
        reading,
        world,
    );
}

/// Reading a file that was not read before.
pub proof fn lemma_play_file(manner: Manner, volume: Volume, path: Seq<char>, world: World)
    requires
        quiet(world),
        proper_path(path),
        fits(world, path),
        !volume.files.contains_key(path),
    ensures
        ({
            let (outcome, now) = play(volume::file(manner, volume, path), world);
            &&& quiet(now)
            &&& unchanged(world, now)
            &&& outcome == if has_file(world, path) {
                (
                    with_file(volume, path, contents(world, path)),
                    Ok::<Seq<u8>, ()>(contents(world, path)),
                )
            } else {
                (volume, Err::<Seq<u8>, ()>(()))
            }
        }),
{
    let line = call_line("FUSE read"@, path);
    let reading = service::get_file(manner.settings, path, 256, manner.verbose);
    lemma_play_os9_trace(manner.verbose, line, world);
    lemma_play::<(), (Volume, Result<Seq<u8>, ()>)>(
        service::os9_trace(manner.verbose, line),
        world,
    );
    law_files_can_be_got(manner.settings, path, 256, manner.verbose, world);
    lemma_play::<Result<Seq<u8>, Os9Failure>, (Volume, Result<Seq<u8>, ()>)>(reading, world);
}

/// A file that is read through the mount holds what it holds on the player, from
/// the position on and as much of it as was asked for. A file that the player
/// does not have is not found. The player keeps all that it has.
pub proof fn law_mounted_files_are_read(
    manner: Manner,
    volume: Volume,
    ino: u64,
    offset: u64,
    size: u32,
    path: Seq<char>,
    world: World,
)
    requires
        quiet(world),
        path_at(volume.paths, ino) == Some(path),
        proper_path(path),
        fits(world, path),
        !volume.pending.contains_key(ino),
        !volume.files.contains_key(path),
    ensures
        ({
            let (outcome, now) = play(volume::read(manner, volume, ino, offset, size), world);
            let data = contents(world, path);
            &&& quiet(now)
            &&& unchanged(world, now)
            &&& !has_file(world, path) ==> outcome == (
                volume,
                Err::<Seq<u8>, Refusal>(Refusal::NotFound),
            )
            &&& has_file(world, path) ==> outcome.1 is Ok && outcome.0 == (Volume {
                files: volume.files.insert(path, data),
                ..volume
            })
            &&& has_file(world, path) && offset < data.len() && offset + size <= data.len()
                ==> outcome.1->Ok_0 == data.subrange(offset as int, offset + size)
            &&& has_file(world, path) && offset < data.len() && offset + size > data.len()
                ==> outcome.1->Ok_0 == data.skip(offset as int)
            &&& has_file(world, path) && offset >= data.len() ==> outcome.1->Ok_0.len() == 0
        }),
{
    lemma_play_file(manner, volume, path, world);
    lemma_play::<(Volume, Result<Seq<u8>, ()>), (Volume, Result<Seq<u8>, Refusal>)>(
        volume::file(manner, volume, path),
        world,
    );
    let data = contents(world, path);
    if has_file(world, path) && offset < data.len() && offset + size == data.len() {
        assert(data.skip(offset as int) =~= data.subrange(offset as int, offset + size));
    }
}

/// What the host is told of a file whose size is not known is as long as what it
/// holds on the player.
proof fn lemma_play_attributes(
    manner: Manner,
    volume: Volume,
    ino: u64,
    path: Seq<char>,
    unreadable: Refusal,
    world: World,
)
    requires
        quiet(world),
        proper_path(path),
        fits(world, path),
        !volume.pending.contains_key(ino),
        !volume.sizes.contains_key(path),
        !volume.files.contains_key(path),
    ensures
        ({
            let (outcome, now) = play(
                file_attributes(manner, volume, ino, path, unreadable),
                world,
            );
            &&& quiet(now)
            &&& unchanged(world, now)
            &&& has_file(world, path) ==> (outcome.1 matches Ok(found) && tells(
                found,
                ino,
                false,
                contents(world, path).len() as int,
            ))
            &&& !has_file(world, path) ==> outcome.1 == Err::<Attributes, Refusal>(unreadable)
        }),
{
    lemma_play_file(manner, volume, path, world);
    lemma_play::<(Volume, Result<Seq<u8>, ()>), (Volume, Result<Attributes, Refusal>)>(
        volume::file(manner, volume, path),
        world,
    );
}

/// What the host is told of a file whose size is not known is as long as what it
/// holds on the player; a file that the player does not have is not found.
pub proof fn law_mounted_files_are_told(
    manner: Manner,
    volume: Volume,
    ino: u64,
    path: Seq<char>,
    world: World,
)
    requires
        quiet(world),
        path_at(volume.paths, ino) == Some(path),
        path != "/"@,
        path != "/cd"@,
        path != "/nvr"@,
        proper_path(path),
        fits(world, path),
        !volume.pending.contains_key(ino),
        !volume.sizes.contains_key(path),
        !volume.files.contains_key(path),
    ensures
        ({
            let (outcome, now) = play(volume::getattr(manner, volume, ino), world);
            &&& quiet(now)
            &&& unchanged(world, now)
            &&& has_file(world, path) ==> (outcome.1 matches Ok(found) && tells(
                found,
                ino,
                false,
                contents(world, path).len() as int,
            ))
            &&& !has_file(world, path) ==> outcome.1 == Err::<Attributes, Refusal>(
                Refusal::NotFound,
            )
        }),
{
    lemma_play_attributes(manner, volume, ino, path, Refusal::NotFound, world);
}

/// A name is found in a directory of the player exactly if the directory holds it.
/// The size is that of the record, on a compact disc, and else that of the file;
/// a name without a file is an error.
pub proof fn law_mounted_names_are_found(
    manner: Manner,
    volume: Volume,
    parent: u64,
    name: Seq<char>,
    world: World,
)
    requires
        quiet(world),
        !(path_or_root(volume, parent) == "/"@ && (name == "cd"@ || name == "nvr"@)),
        proper_path(path_or_root(volume, parent)),
        proper_path(child(path_or_root(volume, parent), name)),
        fits(world, path_or_root(volume, parent)),
        fits(world, child(path_or_root(volume, parent), name)),
        !volume.directories.contains_key(path_or_root(volume, parent)),
        !volume.files.contains_key(child(path_or_root(volume, parent), name)),
        !volume.pending.contains_key(
            numbered(volume.paths, child(path_or_root(volume, parent), name)).0,
        ),
    ensures
        ({
            let directory = path_or_root(volume, parent);
            let path = if directory == "/"@ {
                "/"@ + name
            } else {
                directory + "/"@ + name
            };
            let (outcome, now) = play(volume::lookup(manner, volume, parent, name), world);
            let names = names_in(entries_of(world, directory));
            let sizes = with_sizes(volume.sizes, directory, records(entries_of(world, directory)));
            &&& quiet(now)
            &&& unchanged(world, now)
            &&& !(has_directory(world, directory) && names.contains(name)) ==> outcome.1 == Err::<
                Attributes,
                Refusal,
            >(Refusal::NotFound)
            &&& has_directory(world, directory) && names.contains(name) ==> {
                &&& sizes.contains_key(path) ==> (outcome.1 matches Ok(found) && tells(
                    found,
                    found.ino,
                    false,
                    sizes[path] as int,
                ))
                &&& !sizes.contains_key(path) && has_file(world, path) ==> (outcome.1 matches Ok(
                    found,
                ) && tells(found, found.ino, false, contents(world, path).len() as int))
                &&& !sizes.contains_key(path) && !has_file(world, path) ==> outcome.1 == Err::<
                    Attributes,
                    Refusal,
                >(Refusal::InputOutput)
            }
        }),
{
    let directory = path_or_root(volume, parent);
    let path = child(directory, name);
    let reading = volume::names(manner, volume, directory);
    lemma_play_names(manner, volume, directory, world);
    lemma_play::<(Volume, Result<Seq<Seq<char>>, ()>), (Volume, Result<Attributes, Refusal>)>(
        reading,
        world,
    );
    let (listed, middle) = play(reading, world);
    let data = entries_of(world, directory);
    if has_directory(world, directory) && names_in(data).contains(name) {
        let (ino, paths) = numbered(listed.0.paths, path);
        let known = Volume { paths, ..listed.0 };
        if !known.sizes.contains_key(path) {
            lemma_play_attributes(manner, known, ino, path, Refusal::InputOutput, middle);
        }
    }
}

/// A directory that is listed through the mount shows the names that it holds on
/// the player, in order, after itself and the root. A directory that the player
/// does not have is an error.
pub proof fn law_mounted_directories_are_listed(
    manner: Manner,
    volume: Volume,
    ino: u64,
    offset: u64,
    world: World,
)
    requires
        quiet(world),
        path_or_root(volume, ino) != "/"@,
        proper_path(path_or_root(volume, ino)),
        fits(world, path_or_root(volume, ino)),
        !volume.directories.contains_key(path_or_root(volume, ino)),
    ensures
        ({
            let directory = path_or_root(volume, ino);
            let names = names_in(entries_of(world, directory));
            let (outcome, now) = play(volume::readdir(manner, volume, ino, offset), world);
            &&& quiet(now)
            &&& unchanged(world, now)
            &&& !has_directory(world, directory) ==> outcome == (
                volume,
                Err::<Seq<Listed>, Refusal>(Refusal::InputOutput),
            )
            &&& has_directory(world, directory) ==> (outcome.1 matches Ok(entries) && {
                &&& offset >= names.len() + 2 ==> entries.len() == 0
                &&& offset < names.len() + 2 ==> entries.len() == names.len() + 2 - offset
                &&& forall|i: int|
                    0 <= i < entries.len() && offset + i >= 2 ==> (#[trigger] entries[i]).name
                        == names[offset + i - 2]
            })
        }),
{
    let directory = path_or_root(volume, ino);
    let reading = volume::names(manner, volume, directory);
    lemma_play_names(manner, volume, directory, world);
    lemma_play::<(Volume, Result<Seq<Seq<char>>, ()>), (Volume, Result<Seq<Listed>, Refusal>)>(
        reading,
        world,
    );
    if has_directory(world, directory) {
        let listed = play(reading, world).0;
        let names = names_in(entries_of(world, directory));
        let numbers = numbered_children(listed.0.paths, directory, names).1;
        let all = listing(ino, directory, names, numbers);
        let entries = from_offset(all, offset);
        assert forall|i: int| 0 <= i < entries.len() && offset + i >= 2 implies (
        #[trigger] entries[i]).name == names[offset + i - 2] by {
            assert(entries[i] == all[offset + i]);
        }
    }
}

/// A file is created exactly if its name is proper and not too long, and the
/// non-volatile memory of the player does not hold it. The player learns of it
/// only when it is closed.
pub proof fn law_mounted_files_are_created(
    manner: Manner,
    volume: Volume,
    parent: u64,
    name: Seq<char>,
    world: World,
)
    requires
        quiet(world),
        path_or_root(volume, parent) == "/nvr"@,
        proper_name(name),
        encode_utf8(name).len() <= 28,
        proper_path("/nvr"@),
        fits(world, "/nvr"@),
        !volume.directories.contains_key("/nvr"@),
    ensures
        ({
            let names = names_in(entries_of(world, "/nvr"@));
            let (outcome, now) = play(volume::create(manner, volume, parent, name), world);
            &&& quiet(now)
            &&& unchanged(world, now)
            &&& !has_directory(world, "/nvr"@) ==> outcome.1 == Err::<Attributes, Refusal>(
                Refusal::InputOutput,
            )
            &&& has_directory(world, "/nvr"@) && names.contains(name) ==> outcome.1 == Err::<
                Attributes,
                Refusal,
            >(Refusal::Exists)
            &&& has_directory(world, "/nvr"@) && !names.contains(name) ==> (outcome.1 matches Ok(
                found,
            ) && tells(found, found.ino, false, 0))
        }),
{
    reveal_strlit("/cd");
    reveal_strlit("/nvr");
    assert("/cd"@.len() != "/nvr"@.len());
    let reading = volume::names(manner, volume, "/nvr"@);
    lemma_play_names(manner, volume, "/nvr"@, world);
    lemma_play::<(Volume, Result<Seq<Seq<char>>, ()>), (Volume, Result<Attributes, Refusal>)>(
        reading,
        world,
    );
}

/// A new file that is closed is on the player then, with exactly what was written
/// to it, unless the player had one of that name; then the host is told of an
/// error and the player keeps what it has. Either way the file is no longer new.
pub proof fn law_mounted_files_are_closed(
    manner: Manner,
    volume: Volume,
    ino: u64,
    fh: u64,
    handle: u64,
    world: World,
)
    requires
        quiet(world),
        pending_handle(volume, fh, ino) == Some(handle),
        !volume.pending[handle].committed,
        proper_path(volume.pending[handle].path),
    ensures
        ({
            let staged = volume.pending[handle];
            let (outcome, now) = play(volume::release(manner, volume, ino, fh), world);
            &&& quiet(now)
            &&& now.player.directories == world.player.directories
            &&& !outcome.0.pending.contains_key(handle)
            &&& has_file(world, staged.path) ==> outcome.1 == Err::<(), Refusal>(
                Refusal::InputOutput,
            ) && now.player.files == world.player.files
            &&& !has_file(world, staged.path) ==> outcome.1 == Ok::<(), Refusal>(())
                && now.player.files == world.player.files.insert(
                encode_utf8(staged.path),
                staged.data,
            ) && outcome.0.files.contains_pair(staged.path, staged.data)
        }),
{
    let staged = volume.pending[handle];
    let line = call_line("FUSE commit"@, staged.path);
    let putting = service::put_file(
        manner.settings,
        staged.data,
        staged.path,
        256,
        manner.verbose,
    );
    lemma_play_os9_trace(manner.verbose, line, world);
    lemma_play::<(), (Volume, Result<(), ()>)>(
        service::os9_trace(manner.verbose, line),
        world,
    );
    law_files_can_be_put(
        manner.settings,
        staged.data,
        staged.path,
        256,
        manner.verbose,
        world,
    );
    lemma_play::<Result<(), Os9Failure>, (Volume, Result<(), ()>)>(putting, world);
    lemma_play::<(Volume, Result<(), ()>), (Volume, Result<(), Refusal>)>(
        volume::commit(manner, volume, handle),
        world,
    );
}

/// A file that is deleted through the mount is gone from the player. If the player
/// does not have it, the host is told of an error.
pub proof fn law_mounted_files_are_deleted(
    manner: Manner,
    volume: Volume,
    parent: u64,
    name: Seq<char>,
    world: World,
)
    requires
        quiet(world),
        path_or_root(volume, parent) == "/nvr"@,
        proper_name(name),
        !staged_at(volume, "/nvr/"@ + name),
        proper_path("/nvr/"@ + name),
    ensures
        ({
            let path = "/nvr/"@ + name;
            let (outcome, now) = play(volume::unlink(manner, volume, parent, name), world);
            &&& quiet(now)
            &&& now.player.directories == world.player.directories
            &&& now.player.files == world.player.files.remove(encode_utf8(path))
            &&& has_file(world, path) ==> outcome.1 == Ok::<(), Refusal>(())
                && !outcome.0.files.contains_key(path) && !outcome.0.sizes.contains_key(path)
            &&& !has_file(world, path) ==> outcome == (
                volume,
                Err::<(), Refusal>(Refusal::InputOutput),
            )
        }),
{
    reveal_strlit("/cd");
    reveal_strlit("/nvr");
    reveal_strlit("/nvr/");
    assert("/cd"@.len() != "/nvr"@.len());
    let path = "/nvr/"@ + name;
    let line = call_line("FUSE unlink"@, path);
    let deleting = service::delete_file(manner.settings, path, manner.verbose);
    lemma_play_os9_trace(manner.verbose, line, world);
    lemma_play::<(), (Volume, Result<(), Refusal>)>(
        service::os9_trace(manner.verbose, line),
        world,
    );
    assert(path[0] == '/');
    law_files_can_be_deleted(manner.settings, path, manner.verbose, world);
    lemma_play::<Result<(), Os9Failure>, (Volume, Result<(), Refusal>)>(deleting, world);
}

} // verus!
