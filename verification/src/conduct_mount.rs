//! How a mounted player is talked to: pacing is kept to, and a trace of the line
//! adds nothing but lines that are shown.

use vstd::prelude::*;

use crate::conduct::{differ_in_trace, lemma_then, slowed, twins};
use crate::conduct_files::{
    lemma_delete_file, lemma_get_file, lemma_os9_trace, lemma_put_file, lemma_read_directory,
};
use crate::service;
use crate::service::{call_line, Os9Failure};
use crate::table::path_at;
use crate::volume;
use crate::volume::{
    child, nvr_path, path_or_root, Attributes, Listed, Manner, Refusal, Volume,
};

verus! {

/// The manners are the same, but that one of them has the line traced.
pub open spec fn manners_differ_in_trace(quiet: Manner, traced: Manner) -> bool {
    differ_in_trace(quiet.settings, traced.settings) && quiet.verbose == traced.verbose
}

/// The names in a directory.
proof fn lemma_names(quiet: Manner, traced: Manner, volume: Volume, path: Seq<char>)
    requires
        manners_differ_in_trace(quiet, traced),
    ensures
        twins(
            slowed(quiet.settings),
            volume::names(quiet, volume, path),
            volume::names(traced, volume, path),
        ),
{
    let slow = slowed(quiet.settings);
    let verbose = quiet.verbose;
    let shown = service::os9_trace(verbose, call_line("FUSE readdir"@, path));
    lemma_os9_trace(slow, verbose, call_line("FUSE readdir"@, path));
    lemma_read_directory(quiet.settings, traced.settings, path, 256, verbose);
    lemma_then::<Result<Seq<u8>, Os9Failure>, (Volume, Result<Seq<Seq<char>>, ()>)>(
        slow,
        service::read_directory(quiet.settings, path, 256, verbose),
        service::read_directory(traced.settings, path, 256, verbose),
    );
    lemma_then::<(), (Volume, Result<Seq<Seq<char>>, ()>)>(slow, shown, shown);
}

/// The contents of a file.
proof fn lemma_file(quiet: Manner, traced: Manner, volume: Volume, path: Seq<char>)
    requires
        manners_differ_in_trace(quiet, traced),
    ensures
        twins(
            slowed(quiet.settings),
            volume::file(quiet, volume, path),
            volume::file(traced, volume, path),
        ),
{
    let slow = slowed(quiet.settings);
    let verbose = quiet.verbose;
    let shown = service::os9_trace(verbose, call_line("FUSE read"@, path));
    lemma_os9_trace(slow, verbose, call_line("FUSE read"@, path));
    lemma_get_file(quiet.settings, traced.settings, path, 256, verbose);
    lemma_then::<Result<Seq<u8>, Os9Failure>, (Volume, Result<Seq<u8>, ()>)>(
        slow,
        service::get_file(quiet.settings, path, 256, verbose),
        service::get_file(traced.settings, path, 256, verbose),
    );
    lemma_then::<(), (Volume, Result<Seq<u8>, ()>)>(slow, shown, shown);
}

/// Sending a staged file to the player.
proof fn lemma_commit(quiet: Manner, traced: Manner, volume: Volume, handle: u64)
    requires
        manners_differ_in_trace(quiet, traced),
    ensures
        twins(
            slowed(quiet.settings),
            volume::commit(quiet, volume, handle),
            volume::commit(traced, volume, handle),
        ),
{
    let slow = slowed(quiet.settings);
    let verbose = quiet.verbose;
    let staged = volume.pending[handle];
    let shown = service::os9_trace(verbose, call_line("FUSE commit"@, staged.path));
    lemma_os9_trace(slow, verbose, call_line("FUSE commit"@, staged.path));
    lemma_put_file(quiet.settings, traced.settings, staged.data, staged.path, 256, verbose);
    lemma_then::<Result<(), Os9Failure>, (Volume, Result<(), ()>)>(
        slow,
        service::put_file(quiet.settings, staged.data, staged.path, 256, verbose),
        service::put_file(traced.settings, staged.data, staged.path, 256, verbose),
    );
    lemma_then::<(), (Volume, Result<(), ()>)>(slow, shown, shown);
}

/// The attributes of a file.
proof fn lemma_file_attributes(
    quiet: Manner,
    traced: Manner,
    volume: Volume,
    ino: u64,
    path: Seq<char>,
    unreadable: Refusal,
)
    requires
        manners_differ_in_trace(quiet, traced),
    ensures
        twins(
            slowed(quiet.settings),
            volume::file_attributes(quiet, volume, ino, path, unreadable),
            volume::file_attributes(traced, volume, ino, path, unreadable),
        ),
{
    lemma_file(quiet, traced, volume, path);
    lemma_then::<(Volume, Result<Seq<u8>, ()>), (Volume, Result<Attributes, Refusal>)>(
        slowed(quiet.settings),
        volume::file(quiet, volume, path),
        volume::file(traced, volume, path),
    );
}

/// Looking up a name.
proof fn lemma_lookup(
    quiet: Manner,
    traced: Manner,
    volume: Volume,
    parent: u64,
    name: Seq<char>,
)
    requires
        manners_differ_in_trace(quiet, traced),
    ensures
        twins(
            slowed(quiet.settings),
            volume::lookup(quiet, volume, parent, name),
            volume::lookup(traced, volume, parent, name),
        ),
{
    let slow = slowed(quiet.settings);
    let parent_path = path_or_root(volume, parent);
    let path = child(parent_path, name);
    let refusal = Refusal::InputOutput;
    lemma_names(quiet, traced, volume, parent_path);
    lemma_then::<(Volume, Result<Seq<Seq<char>>, ()>), (Volume, Result<Attributes, Refusal>)>(
        slow,
        volume::names(quiet, volume, parent_path),
        volume::names(traced, volume, parent_path),
    );
    assert forall|other: Volume, ino: u64|
        twins(
            slow,
            #[trigger] volume::file_attributes(quiet, other, ino, path, refusal),
            volume::file_attributes(traced, other, ino, path, refusal),
        ) by {
        lemma_file_attributes(quiet, traced, other, ino, path, refusal);
    }
}

/// Listing a directory.
proof fn lemma_readdir(quiet: Manner, traced: Manner, volume: Volume, ino: u64, offset: u64)
    requires
        manners_differ_in_trace(quiet, traced),
    ensures
        twins(
            slowed(quiet.settings),
            volume::readdir(quiet, volume, ino, offset),
            volume::readdir(traced, volume, ino, offset),
        ),
{
    let slow = slowed(quiet.settings);
    let path = path_or_root(volume, ino);
    lemma_names(quiet, traced, volume, path);
    if path != "/"@ {
        lemma_then::<(Volume, Result<Seq<Seq<char>>, ()>), (Volume, Result<Seq<Listed>, Refusal>)>(
            slow,
            volume::names(quiet, volume, path),
            volume::names(traced, volume, path),
        );
    }
}

/// Deleting a file.
proof fn lemma_unlink(
    quiet: Manner,
    traced: Manner,
    volume: Volume,
    parent: u64,
    name: Seq<char>,
)
    requires
        manners_differ_in_trace(quiet, traced),
    ensures
        twins(
            slowed(quiet.settings),
            volume::unlink(quiet, volume, parent, name),
            volume::unlink(traced, volume, parent, name),
        ),
{
    let slow = slowed(quiet.settings);
    let verbose = quiet.verbose;
    let path = nvr_path(name);
    let shown = service::os9_trace(verbose, call_line("FUSE unlink"@, path));
    lemma_os9_trace(slow, verbose, call_line("FUSE unlink"@, path));
    lemma_delete_file(quiet.settings, traced.settings, path, verbose);
    lemma_then::<Result<(), Os9Failure>, (Volume, Result<(), Refusal>)>(
        slow,
        service::delete_file(quiet.settings, path, verbose),
        service::delete_file(traced.settings, path, verbose),
    );
    lemma_then::<(), (Volume, Result<(), Refusal>)>(slow, shown, shown);
}

/// The operations on a mounted player keep to the pacing, and a trace of the line
/// changes nothing about them but the lines that are shown. The others do not use
/// the line at all.
pub proof fn law_mounted_operations_are_conducted_alike(
    quiet: Manner,
    traced: Manner,
    volume: Volume,
    ino: u64,
    name: Seq<char>,
    handle: u64,
    offset: u64,
    size: u32,
)
    requires
        manners_differ_in_trace(quiet, traced),
    ensures
        ({
            let slow = slowed(quiet.settings);
            &&& twins(
                slow,
                volume::lookup(quiet, volume, ino, name),
                volume::lookup(traced, volume, ino, name),
            )
            &&& twins(
                slow,
                volume::getattr(quiet, volume, ino),
                volume::getattr(traced, volume, ino),
            )
            &&& twins(
                slow,
                volume::read(quiet, volume, ino, offset, size),
                volume::read(traced, volume, ino, offset, size),
            )
            &&& twins(
                slow,
                volume::create(quiet, volume, ino, name),
                volume::create(traced, volume, ino, name),
            )
            &&& twins(
                slow,
                volume::release(quiet, volume, ino, handle),
                volume::release(traced, volume, ino, handle),
            )
            &&& twins(
                slow,
                volume::unlink(quiet, volume, ino, name),
                volume::unlink(traced, volume, ino, name),
            )
            &&& twins(
                slow,
                volume::readdir(quiet, volume, ino, offset),
                volume::readdir(traced, volume, ino, offset),
            )
        }),
{
    let slow = slowed(quiet.settings);
    let path = path_or_root(volume, ino);
    lemma_lookup(quiet, traced, volume, ino, name);
    lemma_file_attributes(quiet, traced, volume, ino, path, Refusal::NotFound);
    if let Some(path) = path_at(volume.paths, ino) {
        lemma_file(quiet, traced, volume, path);
        lemma_then::<(Volume, Result<Seq<u8>, ()>), (Volume, Result<Seq<u8>, Refusal>)>(
            slow,
            volume::file(quiet, volume, path),
            volume::file(traced, volume, path),
        );
    }
    lemma_names(quiet, traced, volume, "/nvr"@);
    lemma_then::<(Volume, Result<Seq<Seq<char>>, ()>), (Volume, Result<Attributes, Refusal>)>(
        slow,
        volume::names(quiet, volume, "/nvr"@),
        volume::names(traced, volume, "/nvr"@),
    );
    if let Some(staged) = volume::pending_handle(volume, handle, ino) {
        lemma_commit(quiet, traced, volume, staged);
        lemma_then::<(Volume, Result<(), ()>), (Volume, Result<(), Refusal>)>(
            slow,
            volume::commit(quiet, volume, staged),
            volume::commit(traced, volume, staged),
        );
    }
    lemma_unlink(quiet, traced, volume, ino, name);
    lemma_readdir(quiet, traced, volume, ino, offset);
}

} // verus!
