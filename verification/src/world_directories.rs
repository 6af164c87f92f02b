//! What reading a directory comes to on an error-free line to a player that does
//! everything right: all of the directory is read, whatever is read at a time.

use vstd::prelude::*;
use vstd::utf8::encode_utf8;

use crate::directory::listed;
use crate::frame::{be32, REG_A0, REG_D0, REG_D1};
use crate::player::{
    entries_left, lemma_loaded, lemma_masks, named_path, names_directory, shown_registers, stored,
    Area, Player,
};
use crate::player_files::lemma_named_path;
use crate::service;
use crate::service::{
    Os9Failure, OS9_DIRECTORY_READ, OS9_I_CLOSE, OS9_I_GETSTT, OS9_I_OPEN, OS9_I_READ,
};
use crate::stub;
use crate::stub::Settings;
use crate::world::{
    data_read, idle, lemma_play, lemma_play_allocate, lemma_play_read, lemma_play_try, os9_served,
    play, with_player, World,
};
use crate::world_files::{
    lemma_ones, lemma_play_call_with, lemma_play_close, lemma_play_fetch, lemma_play_place_path,
    lemma_play_step, placed, proper_path, same_line, with_values,
};

verus! {

/// A directory is open, its status was asked for, and A0 points to the buffer.
spec fn listing_ready(player: Player, buffer: u32) -> bool {
    &&& player.listing matches Some((path, position)) && player.directories.contains_key(path)
        && position <= player.directories[path].len()
    &&& player.asked
    &&& player.d0 == player.number
    &&& player.a0 == buffer
}

/// The bytes that the next read of the open directory brings.
spec fn next_entries(player: Player, read_size: nat) -> Seq<u8> {
    let (text, position) = player.listing->Some_0;
    let all = player.directories[text];
    let left = all.len() - position;
    let count = if left < read_size {
        left
    } else {
        read_size as int
    };
    all.subrange(position as int, position + count)
}

/// The player once the next read of the open directory was fetched.
spec fn with_next_entries(player: Player, read_size: nat, buffer: u32) -> Player {
    let (text, position) = player.listing->Some_0;
    let bytes = next_entries(player, read_size);
    Player {
        area: Area::Memory(buffer + bytes.len()),
        memory: stored(player.memory, buffer as int, bytes),
        d1: bytes.len() as u32,
        listing: Some((text, position + bytes.len())),
        ..player
    }
}

/// The call that reads from the open directory.
proof fn lemma_play_directory_call(
    settings: Settings,
    path: Seq<char>,
    read_size: nat,
    trace: bool,
    buffer: u32,
    world: World,
)
    requires
        idle(world),
        stub::valid_chunk_size(read_size),
        listing_ready(world.player, buffer),
    ensures
        ({
            let player = world.player;
            let (text, position) = player.listing->Some_0;
            let bytes = next_entries(player, read_size);
            let at_end = position == player.directories[text].len();
            let (outcome, now) = play(
                service::call_with(
                    settings,
                    trace,
                    service::sized_call_line("I$Read"@, path, read_size, " bytes requested)"@),
                    REG_D1,
                    seq![read_size as u32],
                    "setting registers for OS-9 directory read"@,
                    OS9_I_READ,
                    "reading OS-9 directory"@,
                ),
                world,
            );
            &&& outcome == Ok::<bool, Os9Failure>(at_end)
            &&& same_line(world, now)
            &&& at_end ==> now.player == (Player {
                area: Area::Registers(REG_D1),
                d1: read_size as u32,
                ..player
            })
            &&& !at_end ==> now.player == (Player {
                area: Area::Registers(REG_D1),
                memory: stored(player.memory, buffer as int, bytes),
                d1: bytes.len() as u32,
                listing: Some((text, position + bytes.len())),
                ..player
            })
        }),
{
    let values = seq![read_size as u32];
    let line = service::sized_call_line("I$Read"@, path, read_size, " bytes requested)"@);
    lemma_ones();
    lemma_masks(values, world.player.d0);
    lemma_masks(values, world.player.d1);
    lemma_masks(values, world.player.a0);
    lemma_play_call_with(
        settings,
        trace,
        line,
        REG_D1,
        values,
        "setting registers for OS-9 directory read"@,
        OS9_I_READ,
        "reading OS-9 directory"@,
        world,
    );
    let set = with_values(world.player, REG_D1, values);
    assert(set == Player {
        area: Area::Registers(REG_D1),
        d1: read_size as u32,
        ..world.player
    });
    assert(entries_left(set) == entries_left(world.player));
}

/// One read that brings something, and the fetching.
proof fn lemma_play_directory_read(
    settings: Settings,
    path: Seq<char>,
    read_size: nat,
    trace: bool,
    buffer: u32,
    data: Seq<u8>,
    world: World,
)
    requires
        idle(world),
        stub::valid_chunk_size(read_size),
        listing_ready(world.player, buffer),
        world.player.listing->Some_0.1
            < world.player.directories[world.player.listing->Some_0.0].len(),
        data.len() + next_entries(world.player, read_size).len() <= usize::MAX,
    ensures
        play(service::directory_data(settings, path, read_size, trace, buffer, data), world)
            == play(
            service::directory_data(
                settings,
                path,
                read_size,
                trace,
                buffer,
                data + next_entries(world.player, read_size),
            ),
            with_player(world, with_next_entries(world.player, read_size, buffer)),
        ),
{
    let player = world.player;
    let bytes = next_entries(player, read_size);
    let calling = service::call_with(
        settings,
        trace,
        service::sized_call_line("I$Read"@, path, read_size, " bytes requested)"@),
        REG_D1,
        seq![read_size as u32],
        "setting registers for OS-9 directory read"@,
        OS9_I_READ,
        "reading OS-9 directory"@,
    );
    lemma_play_directory_call(settings, path, read_size, trace, buffer, world);
    lemma_play_try::<bool, Seq<u8>, Os9Failure>(calling, world);
    let one = play(calling, world).1;
    let fetching = service::fetch(
        settings,
        buffer,
        read_size,
        "selecting OS-9 directory result registers"@,
        "reading OS-9 directory result registers"@,
        "selecting OS-9 directory data buffer"@,
        "reading OS-9 directory data from Stub"@,
    );
    lemma_play_fetch(
        settings,
        buffer,
        read_size,
        "selecting OS-9 directory result registers"@,
        "reading OS-9 directory result registers"@,
        "selecting OS-9 directory data buffer"@,
        "reading OS-9 directory data from Stub"@,
        one,
    );
    lemma_play_try::<Seq<u8>, Seq<u8>, Os9Failure>(fetching, one);
    lemma_loaded(player.memory, buffer as int, bytes);
}

/// Reading the rest of the open directory.
proof fn lemma_play_directory_data(
    settings: Settings,
    path: Seq<char>,
    read_size: nat,
    trace: bool,
    buffer: u32,
    data: Seq<u8>,
    world: World,
)
    requires
        idle(world),
        stub::valid_chunk_size(read_size),
        listing_ready(world.player, buffer),
        ({
            let (text, position) = world.player.listing->Some_0;
            data.len() + world.player.directories[text].len() - position <= usize::MAX
        }),
    ensures
        ({
            let (text, position) = world.player.listing->Some_0;
            let (outcome, now) = play(
                service::directory_data(settings, path, read_size, trace, buffer, data),
                world,
            );
            &&& outcome == Ok::<Seq<u8>, Os9Failure>(
                data + world.player.directories[text].skip(position as int),
            )
            &&& same_line(world, now)
            &&& now.player.files == world.player.files
            &&& now.player.directories == world.player.directories
            &&& now.player.open == world.player.open
            &&& now.player.listing is Some
            &&& now.player.d0 == now.player.number
        }),
    decreases
            world.player.directories[world.player.listing->Some_0.0].len()
                - world.player.listing->Some_0.1,
{
    let player = world.player;
    let (text, position) = player.listing->Some_0;
    let all = player.directories[text];
    if position == all.len() {
        let calling = service::call_with(
            settings,
            trace,
            service::sized_call_line("I$Read"@, path, read_size, " bytes requested)"@),
            REG_D1,
            seq![read_size as u32],
            "setting registers for OS-9 directory read"@,
            OS9_I_READ,
            "reading OS-9 directory"@,
        );
        lemma_play_directory_call(settings, path, read_size, trace, buffer, world);
        lemma_play_try::<bool, Seq<u8>, Os9Failure>(calling, world);
        assert(data + all.skip(position as int) =~= data);
    } else {
        let bytes = next_entries(player, read_size);
        lemma_play_directory_read(settings, path, read_size, trace, buffer, data, world);
        let next = with_player(world, with_next_entries(player, read_size, buffer));
        lemma_play_directory_data(
            settings,
            path,
            read_size,
            trace,
            buffer,
            data + bytes,
            next,
        );
        assert(data + bytes + all.skip((position + bytes.len()) as int) =~= data + all.skip(
            position as int,
        ));
    }
}

/// Asking for the status of an open directory, and reading all of it.
proof fn lemma_play_open_directory(
    settings: Settings,
    path: Seq<char>,
    read_size: nat,
    trace: bool,
    buffer: u32,
    world: World,
    text: Seq<u8>,
)
    requires
        idle(world),
        stub::valid_chunk_size(read_size),
        world.player.listing == Some((text, 0nat)),
        world.player.open is None,
        world.player.d0 == world.player.number,
        world.player.directories.contains_key(text),
        world.player.directories[text].len() <= usize::MAX,
    ensures
        ({
            let (outcome, now) = play(
                service::read_open_directory(settings, path, read_size, trace, buffer),
                world,
            );
            &&& outcome == Ok::<Seq<u8>, Os9Failure>(world.player.directories[text])
            &&& same_line(world, now)
            &&& now.player.files == world.player.files
            &&& now.player.directories == world.player.directories
            &&& now.player.open is None
            &&& now.player.listing is None
        }),
{
    reveal(service::read_open_directory);
    let mask = REG_D1 | REG_A0;
    let values = seq![0u32, buffer];
    let all = world.player.directories[text];
    let asking = service::call_with(
        settings,
        trace,
        service::call_line("I$GetStt"@, path),
        mask,
        values,
        "setting registers for OS-9 directory status"@,
        OS9_I_GETSTT,
        "querying OS-9 directory status"@,
    );
    lemma_ones();
    lemma_masks(values, world.player.d0);
    lemma_masks(values, world.player.d1);
    lemma_masks(values, world.player.a0);
    lemma_play_call_with(
        settings,
        trace,
        service::call_line("I$GetStt"@, path),
        mask,
        values,
        "setting registers for OS-9 directory status"@,
        OS9_I_GETSTT,
        "querying OS-9 directory status"@,
        world,
    );
    lemma_play_try::<bool, Seq<u8>, Os9Failure>(asking, world);
    let one = play(asking, world).1;
    assert(one.player == Player {
        area: Area::Registers(mask),
        d1: 0,
        a0: buffer,
        asked: true,
        ..world.player
    });
    assert(0x102u32 & 1 == 0 && 0x102u32 & 2 == 2 && 0x102u32 & 0x100 == 0x100) by (bit_vector);
    assert(2u32 | 0x100u32 == 0x102u32) by (bit_vector);
    assert(shown_registers(one.player, mask) =~= be32(0) + be32(buffer));
    assert(data_read(one.player, 1).1.len() == 1);
    lemma_play_read(settings, 1, one);
    lemma_play_step::<Seq<u8>, Seq<u8>>(stub::read(settings, 1), one);
    let reading = service::directory_data(settings, path, read_size, trace, buffer, seq![]);
    lemma_play_directory_data(settings, path, read_size, trace, buffer, seq![], one);
    lemma_play::<Result<Seq<u8>, Os9Failure>, Result<Seq<u8>, Os9Failure>>(reading, one);
    assert(seq![] + all.skip(0) =~= all);
    let two = play(reading, one).1;
    lemma_play_close(
        settings,
        path,
        trace,
        Ok::<Seq<u8>, Os9Failure>(all),
        "closing OS-9 directory"@,
        two,
    );
    let three = with_player(two, os9_served(two.player, OS9_I_CLOSE).0);
    assert(three.player == Player { listing: None, ..two.player });
}

/// On an error-free line, reading a directory of a player that does everything
/// right succeeds if there is such a directory, and is refused otherwise. The
/// result is all that the directory holds, whatever is read at a time; nothing
/// stays open, and nothing has changed. Only a directory that does not fit in
/// memory cannot be read.
pub proof fn law_directories_can_be_read(
    settings: Settings,
    path: Seq<char>,
    read_size: nat,
    trace: bool,
    world: World,
)
    requires
        idle(world),
        proper_path(path),
        1 <= read_size <= 0xffff,
        read_size % 32 == 0,
        world.player.open is None,
        world.player.listing is None,
        world.player.directories.contains_key(encode_utf8(path))
            ==> world.player.directories[encode_utf8(path)].len() <= usize::MAX,
    ensures
        ({
            let (outcome, now) = play(
                service::read_directory(settings, path, read_size, trace),
                world,
            );
            let directories = world.player.directories;
            let text = encode_utf8(path);
            &&& idle(now)
            &&& outcome == if directories.contains_key(text) {
                Ok(directories[text])
            } else {
                Err(Os9Failure::OpenDirectory { path })
            }
            &&& now.player.directories == directories
            &&& now.player.files == world.player.files
            &&& now.player.open is None
            &&& now.player.listing is None
        }),
{
    let text = encode_utf8(path);
    let directories = world.player.directories;
    let steps = service::directory_steps();
    let place = (world.places)(world.allocated);
    let one = placed(world, path);
    let line = service::call_line("I$Open"@, path) + " (directory)"@;
    let mask = REG_D0 | REG_A0;
    let values = seq![OS9_DIRECTORY_READ, place];
    let setting = "setting registers for OS-9 directory open"@;
    let calling = "opening OS-9 directory"@;
    let opening = service::call_with(
        settings,
        trace,
        line,
        mask,
        values,
        setting,
        OS9_I_OPEN,
        calling,
    );
    lemma_play_place_path(settings, path, steps, world);
    lemma_play_try::<u32, Seq<u8>, Os9Failure>(
        service::place_path(settings, path, steps),
        world,
    );
    lemma_ones();
    lemma_masks(values, one.player.d0);
    lemma_masks(values, one.player.a0);
    lemma_play_call_with(
        settings,
        trace,
        line,
        mask,
        values,
        setting,
        OS9_I_OPEN,
        calling,
        one,
    );
    lemma_play_try::<bool, Seq<u8>, Os9Failure>(opening, one);
    let set = with_values(one.player, mask, values);
    lemma_named_path(world.player.memory, path, set);
    assert(named_path(set) == text);
    assert(names_directory(set));
    let two = with_player(one, os9_served(set, OS9_I_OPEN).0);
    let whole = service::read_directory(settings, path, read_size, trace);
    if directories.contains_key(text) {
        let buffer = (two.places)(two.allocated);
        let three = World {
            player: Player { area: Area::Memory(buffer as int), ..two.player },
            allocated: two.allocated + 1,
            ..two
        };
        lemma_play_allocate(settings, read_size, two);
        lemma_play_step::<(usize, u32), Seq<u8>>(
            stub::allocate_buffer(settings, read_size),
            two,
        );
        lemma_play_open_directory(settings, path, read_size, trace, buffer, three, text);
        let reading = service::read_open_directory(settings, path, read_size, trace, buffer);
        assert(play(whole, world) == play(reading, three));
    } else {
        assert(os9_served(set, OS9_I_OPEN) == (set, true));
        assert(play(whole, world) == (
            Err::<Seq<u8>, Os9Failure>(Os9Failure::OpenDirectory { path }),
            two,
        ));
    }
}

/// On an error-free line, a directory of a player that does everything right is
/// shown with all that it holds.
pub proof fn law_directories_can_be_listed(
    settings: Settings,
    path: Seq<char>,
    read_size: nat,
    trace: bool,
    world: World,
)
    requires
        idle(world),
        proper_path(path),
        1 <= read_size <= 0xffff,
        read_size % 32 == 0,
        world.player.open is None,
        world.player.listing is None,
        world.player.directories.contains_key(encode_utf8(path)),
        world.player.directories[encode_utf8(path)].len() <= usize::MAX,
    ensures
        play(service::list_directory(settings, path, read_size, trace), world).0 == Ok::<
            (Seq<Seq<char>>, nat),
            Os9Failure,
        >(listed(world.player.directories[encode_utf8(path)])),
{
    law_directories_can_be_read(settings, path, read_size, trace, world);
    lemma_play_try::<Seq<u8>, (Seq<Seq<char>>, nat), Os9Failure>(
        service::read_directory(settings, path, read_size, trace),
        world,
    );
}

} // verus!
