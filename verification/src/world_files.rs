//! What the operations come to on an error-free line to a player that does
//! everything right: they succeed, and what was put is got again.

use vstd::prelude::*;
use vstd::utf8::encode_utf8;

use crate::dialogue::{follows, Dialogue};
use crate::error::Failure;
use crate::frame::{be32, ones, REG_A0, REG_CARRY, REG_D0, REG_D1};
use crate::laws::law_numbers_round_trip;
use crate::line::{Call, Event};
use crate::player::{
    lemma_loaded, lemma_masks, loaded, named_path, names_directory, shown_registers, step, stored,
    Action, Area, Player,
};
use crate::player_files::{at_end, lemma_named_path, ready};
use crate::service;
use crate::service::{
    path_bytes, Os9Failure, PathSteps, OS9_FILE_READ, OS9_FILE_READ_WRITE, OS9_I_CLOSE,
    OS9_I_CREATE, OS9_I_DELETE, OS9_I_OPEN, OS9_I_READ, OS9_I_WRITE, OS9_OWNER_READ_WRITE,
};
use crate::stub;
use crate::stub::Settings;
use crate::world::{
    data_written, idle, law_records_are_played, lemma_play, lemma_play_allocate, lemma_play_call,
    lemma_play_os9_call, lemma_play_read, lemma_play_select, lemma_play_set_address,
    lemma_play_set_registers, lemma_play_try, lemma_play_write, os9_served, play, with_player,
    world_after, World,
};

verus! {

/// A step is played one part after the other, as long as it succeeds.
pub proof fn lemma_play_step<A, B>(first: Dialogue<Result<A, Failure>>, world: World)
    ensures
        forall|name: Seq<char>, next: spec_fn(A) -> Dialogue<Result<B, Os9Failure>>|
            play(#[trigger] service::step(name, first, next), world) == match play(
                first,
                world,
            ).0 {
                Ok(result) => play(next(result), play(first, world).1),
                Err(error) => (Err(Os9Failure::Stub { step: name, error }), play(first, world).1),
            },
{
    lemma_play::<Result<A, Failure>, Result<B, Os9Failure>>(first, world);
}

/// The player once a path is in its memory, at this address.
pub open spec fn with_path(player: Player, path: Seq<char>, place: u32) -> Player {
    Player {
        area: Area::Memory(place + path_bytes(path).len()),
        memory: stored(player.memory, place as int, path_bytes(path)),
        ..player
    }
}

/// The world once a path was brought to the player.
pub open spec fn placed(world: World, path: Seq<char>) -> World {
    World {
        player: with_path(world.player, path, (world.places)(world.allocated)),
        allocated: world.allocated + 1,
        ..world
    }
}

/// Bringing a path to the player.
pub proof fn lemma_play_place_path(
    settings: Settings,
    path: Seq<char>,
    steps: PathSteps,
    world: World,
)
    requires
        idle(world),
        path_bytes(path).len() <= 0xffff,
    ensures
        play(service::place_path(settings, path, steps), world) == (
            Ok::<u32, Os9Failure>((world.places)(world.allocated)),
            placed(world, path),
        ),
{
    reveal(service::place_path);
    let bytes = path_bytes(path);
    let place = (world.places)(world.allocated);
    let addressed = with_player(world, Player { area: Area::Memory(0), ..world.player });
    let allocated = World {
        player: Player { area: Area::Memory(place as int), ..addressed.player },
        allocated: world.allocated + 1,
        ..addressed
    };
    lemma_play_set_address(settings, 0, world);
    lemma_play_step::<(), u32>(stub::set_address(settings, 0), world);
    lemma_play_allocate(settings, bytes.len(), addressed);
    lemma_play_step::<(usize, u32), u32>(
        stub::allocate_buffer(settings, bytes.len()),
        addressed,
    );
    lemma_play_write(settings, bytes, allocated);
    lemma_play_step::<(), u32>(stub::write(settings, bytes), allocated);
}

/// Showing a line to the user.
pub proof fn lemma_play_os9_trace(trace: bool, line: Seq<char>, world: World)
    ensures
        play(service::os9_trace(trace, line), world) == ((), world),
{
    if trace {
        lemma_play_call::<()>(Call::Note(line), world);
    }
}

/// Making an OS-9 call with the registers as they are.
pub proof fn lemma_play_plain_call(
    settings: Settings,
    trace: bool,
    line: Seq<char>,
    call: u16,
    calling: Seq<char>,
    world: World,
)
    requires
        idle(world),
    ensures
        play(service::plain_call(settings, trace, line, call, calling), world) == (
            Ok::<bool, Os9Failure>(os9_served(world.player, call).1),
            with_player(world, os9_served(world.player, call).0),
        ),
{
    reveal(service::plain_call);
    assert(0u32 & REG_CARRY == 0) by (bit_vector);
    assert(REG_CARRY & REG_CARRY != 0) by (bit_vector);
    lemma_play_os9_trace(trace, line, world);
    lemma_play::<(), Result<bool, Os9Failure>>(service::os9_trace(trace, line), world);
    lemma_play_os9_call(settings, call, world);
    lemma_play_step::<u32, bool>(stub::os9_call(settings, call, 0), world);
}

/// The player once registers are set.
pub open spec fn with_values(player: Player, mask: u32, values: Seq<u32>) -> Player {
    step(player, Action::SetRegisters { mask, values })->Some_0
}

/// Making an OS-9 call with registers that are set before.
pub proof fn lemma_play_call_with(
    settings: Settings,
    trace: bool,
    line: Seq<char>,
    mask: u32,
    values: Seq<u32>,
    setting: Seq<char>,
    call: u16,
    calling: Seq<char>,
    world: World,
)
    requires
        idle(world),
        values.len() == ones(mask),
        values.len() < 0x1000,
    ensures
        ({
            let (next, failed) = os9_served(with_values(world.player, mask, values), call);
            play(
                service::call_with(settings, trace, line, mask, values, setting, call, calling),
                world,
            ) == (Ok::<bool, Os9Failure>(failed), with_player(world, next))
        }),
{
    reveal(service::call_with);
    let set = with_player(world, with_values(world.player, mask, values));
    lemma_play_set_registers(settings, mask, values, world);
    lemma_play_step::<(), bool>(stub::set_registers(settings, mask, values), world);
    lemma_play_plain_call(settings, trace, line, call, calling, set);
}

/// How many registers the masks select that the library uses.
pub proof fn lemma_ones()
    ensures
        ones(REG_D0 | REG_A0) == 2,
        ones(REG_D1 | REG_A0) == 2,
        ones(REG_D0 | REG_D1 | REG_A0) == 3,
        ones(REG_D1) == 1,
{
    reveal_with_fuel(ones, 12);
    assert(1u32 | 0x100u32 == 0x101u32 && 2u32 | 0x100u32 == 0x102u32 && 1u32 | 2u32 | 0x100u32
        == 0x103u32) by (bit_vector);
}

/// Closing a file.
pub proof fn lemma_play_close<A>(
    settings: Settings,
    path: Seq<char>,
    trace: bool,
    work: Result<A, Os9Failure>,
    closing: Seq<char>,
    world: World,
)
    requires
        idle(world),
    ensures
        play(service::close(settings, path, trace, work, closing), world) == (
            work,
            with_player(world, os9_served(world.player, OS9_I_CLOSE).0),
        ),
{
    reveal(service::close);
    let line = service::call_line("I$Close"@, path);
    lemma_play_os9_trace(trace, line, world);
    lemma_play::<(), Result<A, Os9Failure>>(service::os9_trace(trace, line), world);
    lemma_play_os9_call(settings, OS9_I_CLOSE, world);
    lemma_play::<Result<u32, Failure>, Result<A, Os9Failure>>(
        stub::os9_call(settings, OS9_I_CLOSE, 0),
        world,
    );
}

/// Only the player has changed.
pub open spec fn same_line(before: World, now: World) -> bool {
    now == with_player(before, now.player)
}

/// Writing a chunk appends it to the open file.
proof fn lemma_play_put_chunk(
    settings: Settings,
    path: Seq<char>,
    trace: bool,
    buffer: u32,
    chunk: Seq<u8>,
    world: World,
    text: Seq<u8>,
)
    requires
        idle(world),
        chunk.len() <= 0xffff,
        at_end(world.player, text),
    ensures
        ({
            let (outcome, now) = play(
                service::put_chunk(settings, path, trace, buffer, chunk),
                world,
            );
            let files = world.player.files;
            &&& outcome == Ok::<(), Os9Failure>(())
            &&& same_line(world, now)
            &&& now.player.directories == world.player.directories
            &&& at_end(now.player, text)
            &&& now.player.files == files.insert(text, files[text] + chunk)
        }),
{
    reveal(service::put_chunk);
    let line = service::sized_call_line("I$Write"@, path, chunk.len(), " bytes)"@);
    let calling = "writing OS-9 destination file"@;
    let values = seq![chunk.len() as u32, buffer];
    let mask = REG_D1 | REG_A0;
    let one = with_player(world, with_values(world.player, mask, values));
    let two = with_player(one, Player { area: Area::Memory(buffer as int), ..one.player });
    let three = with_player(
        two,
        Player {
            area: Area::Memory(buffer + chunk.len()),
            memory: stored(world.player.memory, buffer as int, chunk),
            ..two.player
        },
    );
    lemma_ones();
    lemma_masks(values, world.player.d0);
    lemma_masks(values, world.player.d1);
    lemma_masks(values, world.player.a0);
    lemma_play_set_registers(settings, mask, values, world);
    lemma_play_step::<(), ()>(stub::set_registers(settings, mask, values), world);
    lemma_play_set_address(settings, buffer, one);
    lemma_play_step::<(), ()>(stub::set_address(settings, buffer), one);
    lemma_play_write(settings, chunk, two);
    lemma_play_step::<(), ()>(stub::write(settings, chunk), two);
    lemma_play_plain_call(settings, trace, line, OS9_I_WRITE, calling, three);
    lemma_play_try::<bool, (), Os9Failure>(
        service::plain_call(settings, trace, line, OS9_I_WRITE, calling),
        three,
    );
    lemma_loaded(world.player.memory, buffer as int, chunk);
}

/// Writing data in chunks appends it to the open file.
proof fn lemma_play_put_chunks(
    settings: Settings,
    path: Seq<char>,
    chunk_size: nat,
    trace: bool,
    buffer: u32,
    data: Seq<u8>,
    world: World,
    text: Seq<u8>,
)
    requires
        idle(world),
        stub::valid_chunk_size(chunk_size),
        at_end(world.player, text),
    ensures
        ({
            let (outcome, now) = play(
                service::put_chunks(settings, path, chunk_size, trace, buffer, data),
                world,
            );
            let files = world.player.files;
            &&& outcome == Ok::<(), Os9Failure>(())
            &&& same_line(world, now)
            &&& now.player.directories == world.player.directories
            &&& at_end(now.player, text)
            &&& now.player.files == files.insert(text, files[text] + data)
        }),
    decreases data.len(),
{
    let files = world.player.files;
    if data.len() == 0 {
        assert(files[text] + data =~= files[text]);
        assert(files.insert(text, files[text]) =~= files);
    } else {
        let count = stub::chunk_length(data.len(), chunk_size) as int;
        let chunk = data.take(count);
        let left = data.skip(count);
        let putting = service::put_chunk(settings, path, trace, buffer, chunk);
        let middle = play(putting, world).1;
        lemma_play_put_chunk(settings, path, trace, buffer, chunk, world, text);
        lemma_play_try::<(), (), Os9Failure>(putting, world);
        lemma_play_put_chunks(settings, path, chunk_size, trace, buffer, left, middle, text);
        let rest = service::put_chunks(settings, path, chunk_size, trace, buffer, left);
        assert(play(
            service::put_chunks(settings, path, chunk_size, trace, buffer, data),
            world,
        ) == play(rest, middle));
        assert(middle.player.files[text] == files[text] + chunk);
        assert(files[text] + chunk + left =~= files[text] + data);
        assert(files.insert(text, files[text] + chunk).insert(text, files[text] + data)
            =~= files.insert(text, files[text] + data));
    }
}

/// A path that OS-9 can be given: it holds no zero byte, and it fits into a
/// buffer.
pub open spec fn proper_path(path: Seq<char>) -> bool {
    !service::holds_nul(path) && path_bytes(path).len() <= 0xffff
}

/// Nothing is open on the player.
pub open spec fn at_rest(player: Player) -> bool {
    player.open is None && player.listing is None
}

/// On an error-free line, putting a file on a player that does everything right
/// succeeds if there is none of that name, and is refused otherwise. The file
/// then holds exactly the data, and no other file has changed. Nothing stays open.
pub proof fn law_files_can_be_put(
    settings: Settings,
    data: Seq<u8>,
    path: Seq<char>,
    chunk_size: nat,
    trace: bool,
    world: World,
)
    requires
        idle(world),
        proper_path(path),
        stub::valid_chunk_size(chunk_size),
    ensures
        ({
            let (outcome, now) = play(
                service::put_file(settings, data, path, chunk_size, trace),
                world,
            );
            let files = world.player.files;
            let text = encode_utf8(path);
            &&& idle(now)
            &&& outcome == if files.contains_key(text) {
                Err(Os9Failure::Create { path })
            } else {
                Ok(())
            }
            &&& now.player.files == if files.contains_key(text) {
                files
            } else {
                files.insert(text, data)
            }
            &&& now.player.directories == world.player.directories
            &&& at_rest(world.player) ==> at_rest(now.player)
        }),
{
    let text = encode_utf8(path);
    let files = world.player.files;
    let steps = service::destination_steps();
    let place = (world.places)(world.allocated);
    let one = placed(world, path);
    let line = service::call_line("I$Create"@, path);
    let mask = REG_D0 | REG_D1 | REG_A0;
    let values = seq![OS9_FILE_READ_WRITE, OS9_OWNER_READ_WRITE, place];
    let setting = "setting registers for OS-9 file create"@;
    let calling = "creating OS-9 destination file"@;
    let creating = service::call_with(
        settings,
        trace,
        line,
        mask,
        values,
        setting,
        OS9_I_CREATE,
        calling,
    );
    lemma_play_place_path(settings, path, steps, world);
    lemma_play_try::<u32, (), Os9Failure>(service::place_path(settings, path, steps), world);
    lemma_ones();
    lemma_masks(values, one.player.d0);
    lemma_masks(values, one.player.d1);
    lemma_masks(values, one.player.a0);
    lemma_play_call_with(
        settings,
        trace,
        line,
        mask,
        values,
        setting,
        OS9_I_CREATE,
        calling,
        one,
    );
    lemma_play_try::<bool, (), Os9Failure>(creating, one);
    let set = with_values(one.player, mask, values);
    lemma_named_path(world.player.memory, path, set);
    assert(named_path(set) == text);
    let two = with_player(one, os9_served(set, OS9_I_CREATE).0);
    if !files.contains_key(text) {
        let buffer = (two.places)(two.allocated);
        let three = World {
            player: Player { area: Area::Memory(buffer as int), ..two.player },
            allocated: two.allocated + 1,
            ..two
        };
        lemma_play_allocate(settings, chunk_size, two);
        lemma_play_step::<(usize, u32), ()>(stub::allocate_buffer(settings, chunk_size), two);
        let writing = service::put_chunks(settings, path, chunk_size, trace, buffer, data);
        assert(at_end(three.player, text));
        lemma_play_put_chunks(
            settings,
            path,
            chunk_size,
            trace,
            buffer,
            data,
            three,
            text,
        );
        lemma_play::<Result<(), Os9Failure>, Result<(), Os9Failure>>(writing, three);
        let four = play(writing, three).1;
        assert(three.player.files[text] + data =~= data);
        assert(four.player.files =~= files.insert(text, data));
        lemma_play_close(
            settings,
            path,
            trace,
            Ok::<(), Os9Failure>(()),
            "closing OS-9 destination file"@,
            four,
        );
        let five = with_player(four, os9_served(four.player, OS9_I_CLOSE).0);
        assert(five.player.files == four.player.files);
        assert(play(service::put_file(settings, data, path, chunk_size, trace), world) == (
            Ok::<(), Os9Failure>(()),
            five,
        ));
    } else {
        assert(os9_served(set, OS9_I_CREATE) == (set, true));
        assert(play(service::put_file(settings, data, path, chunk_size, trace), world) == (
            Err::<(), Os9Failure>(Os9Failure::Create { path }),
            two,
        ));
    }
}

/// What a read left in the buffer is fetched.
pub proof fn lemma_play_fetch(
    settings: Settings,
    buffer: u32,
    limit: nat,
    selecting: Seq<char>,
    reading: Seq<char>,
    addressing: Seq<char>,
    fetching: Seq<char>,
    world: World,
)
    requires
        idle(world),
        1 <= world.player.d1 <= limit,
        limit <= 0xffff,
    ensures
        ({
            let count = world.player.d1 as nat;
            play(
                service::fetch(
                    settings,
                    buffer,
                    limit,
                    selecting,
                    reading,
                    addressing,
                    fetching,
                ),
                world,
            ) == (
                Ok::<Seq<u8>, Os9Failure>(loaded(world.player.memory, buffer as int, count)),
                with_player(
                    world,
                    Player { area: Area::Memory(buffer + count), ..world.player },
                ),
            )
        }),
{
    reveal(service::fetch);
    let count = world.player.d1 as nat;
    let mask = REG_D0 | REG_D1;
    let one = with_player(world, Player { area: Area::Registers(mask), ..world.player });
    let registers = shown_registers(one.player, mask);
    let two = with_player(one, Player { area: Area::Memory(buffer as int), ..one.player });
    lemma_masks(seq![], 0);
    lemma_play_select(settings, mask, world);
    lemma_play_step::<(), Seq<u8>>(stub::select_registers(settings, mask), world);
    assert(registers =~= be32(world.player.d0) + be32(world.player.d1));
    assert(registers.skip(4) =~= be32(world.player.d1));
    law_numbers_round_trip(world.player.d1);
    lemma_play_read(settings, 8, one);
    lemma_play_step::<Seq<u8>, Seq<u8>>(stub::read(settings, 8), one);
    lemma_play_set_address(settings, buffer, one);
    lemma_play_step::<(), Seq<u8>>(stub::set_address(settings, buffer), one);
    lemma_play_read(settings, count, two);
    lemma_play_step::<Seq<u8>, Seq<u8>>(stub::read(settings, count), two);
}

/// The bytes that the next read of the open file brings.
spec fn next_bytes(player: Player) -> Seq<u8> {
    let (text, position) = player.open->Some_0;
    let file = player.files[text];
    let left = file.len() - position;
    let count = if left < player.d1 {
        left
    } else {
        player.d1 as int
    };
    file.subrange(position as int, position + count)
}

/// One read that brings something, and the fetching.
proof fn lemma_play_file_read(
    settings: Settings,
    path: Seq<char>,
    chunk_size: nat,
    trace: bool,
    buffer: u32,
    data: Seq<u8>,
    world: World,
)
    requires
        idle(world),
        stub::valid_chunk_size(chunk_size),
        ready(world.player, buffer, chunk_size),
        world.player.open->Some_0.1 < world.player.files[world.player.open->Some_0.0].len(),
        data.len() + next_bytes(world.player).len() <= usize::MAX,
    ensures
        ({
            let player = world.player;
            let (text, position) = player.open->Some_0;
            let bytes = next_bytes(player);
            let now = World {
                player: Player {
                    area: Area::Registers(REG_D1),
                    memory: stored(player.memory, buffer as int, bytes),
                    open: Some((text, position + bytes.len())),
                    ..player
                },
                ..world
            };
            play(service::file_data(settings, path, chunk_size, trace, buffer, data), world)
                == play(
                service::file_data(settings, path, chunk_size, trace, buffer, data + bytes),
                now,
            )
        }),
{
    let player = world.player;
    let (text, position) = player.open->Some_0;
    let bytes = next_bytes(player);
    let line = service::sized_call_line("I$Read"@, path, chunk_size, " bytes requested)"@);
    let calling = "reading OS-9 source file"@;
    let one = with_player(world, os9_served(player, OS9_I_READ).0);
    assert(one.player == Player {
        memory: stored(player.memory, buffer as int, bytes),
        d1: bytes.len() as u32,
        open: Some((text, position + bytes.len())),
        ..player
    });
    lemma_play_plain_call(settings, trace, line, OS9_I_READ, calling, world);
    lemma_play_try::<bool, Seq<u8>, Os9Failure>(
        service::plain_call(settings, trace, line, OS9_I_READ, calling),
        world,
    );
    let fetching = service::fetch(
        settings,
        buffer,
        chunk_size,
        "selecting OS-9 file result registers"@,
        "reading OS-9 file result registers"@,
        "selecting OS-9 file data buffer"@,
        "reading OS-9 file data from Stub"@,
    );
    lemma_play_fetch(
        settings,
        buffer,
        chunk_size,
        "selecting OS-9 file result registers"@,
        "reading OS-9 file result registers"@,
        "selecting OS-9 file data buffer"@,
        "reading OS-9 file data from Stub"@,
        one,
    );
    lemma_play_try::<Seq<u8>, Seq<u8>, Os9Failure>(fetching, one);
    lemma_loaded(player.memory, buffer as int, bytes);
    let two = play(fetching, one).1;
    let values = seq![chunk_size as u32];
    lemma_ones();
    lemma_masks(values, two.player.d0);
    lemma_masks(values, two.player.d1);
    lemma_masks(values, two.player.a0);
    lemma_play_set_registers(settings, REG_D1, values, two);
    lemma_play_step::<(), Seq<u8>>(stub::set_registers(settings, REG_D1, values), two);
}

/// Reading the rest of the open file.
proof fn lemma_play_file_data(
    settings: Settings,
    path: Seq<char>,
    chunk_size: nat,
    trace: bool,
    buffer: u32,
    data: Seq<u8>,
    world: World,
)
    requires
        idle(world),
        stub::valid_chunk_size(chunk_size),
        ready(world.player, buffer, chunk_size),
        ({
            let (text, position) = world.player.open->Some_0;
            data.len() + world.player.files[text].len() - position <= usize::MAX
        }),
    ensures
        ({
            let (text, position) = world.player.open->Some_0;
            let (outcome, now) = play(
                service::file_data(settings, path, chunk_size, trace, buffer, data),
                world,
            );
            &&& outcome == Ok::<Seq<u8>, Os9Failure>(
                data + world.player.files[text].skip(position as int),
            )
            &&& same_line(world, now)
            &&& now.player.files == world.player.files
            &&& now.player.directories == world.player.directories
            &&& now.player.open is Some
            &&& now.player.listing is None
            &&& now.player.d0 == now.player.number
        }),
    decreases
            world.player.files[world.player.open->Some_0.0].len() - world.player.open->Some_0.1,
{
    let player = world.player;
    let (text, position) = player.open->Some_0;
    let file = player.files[text];
    if position == file.len() {
        let line = service::sized_call_line("I$Read"@, path, chunk_size, " bytes requested)"@);
        let calling = "reading OS-9 source file"@;
        assert(os9_served(player, OS9_I_READ) == (player, true));
        lemma_play_plain_call(settings, trace, line, OS9_I_READ, calling, world);
        lemma_play_try::<bool, Seq<u8>, Os9Failure>(
            service::plain_call(settings, trace, line, OS9_I_READ, calling),
            world,
        );
        assert(data + file.skip(position as int) =~= data);
    } else {
        let bytes = next_bytes(player);
        lemma_play_file_read(settings, path, chunk_size, trace, buffer, data, world);
        let next = World {
            player: Player {
                area: Area::Registers(REG_D1),
                memory: stored(player.memory, buffer as int, bytes),
                open: Some((text, position + bytes.len())),
                ..player
            },
            ..world
        };
        lemma_play_file_data(settings, path, chunk_size, trace, buffer, data + bytes, next);
        assert(data + bytes + file.skip((position + bytes.len()) as int) =~= data + file.skip(
            position as int,
        ));
    }
}

/// On an error-free line, getting a file from a player that does everything right
/// succeeds if there is such a file, and is refused otherwise. The result is what
/// the file holds, and no file has changed. Nothing stays open. Only a file that
/// does not fit in memory cannot be got.
pub proof fn law_files_can_be_got(
    settings: Settings,
    path: Seq<char>,
    chunk_size: nat,
    trace: bool,
    world: World,
)
    requires
        idle(world),
        proper_path(path),
        stub::valid_chunk_size(chunk_size),
        world.player.files.contains_key(encode_utf8(path)) ==> world.player.files[encode_utf8(
            path,
        )].len() <= usize::MAX,
    ensures
        ({
            let (outcome, now) = play(
                service::get_file(settings, path, chunk_size, trace),
                world,
            );
            let files = world.player.files;
            let text = encode_utf8(path);
            &&& idle(now)
            &&& outcome == if files.contains_key(text) {
                Ok(files[text])
            } else {
                Err(Os9Failure::OpenFile { path })
            }
            &&& now.player.files == files
            &&& now.player.directories == world.player.directories
            &&& at_rest(world.player) ==> at_rest(now.player)
        }),
{
    let text = encode_utf8(path);
    let files = world.player.files;
    let steps = service::source_steps();
    let place = (world.places)(world.allocated);
    let one = placed(world, path);
    let line = service::call_line("I$Open"@, path) + " (read)"@;
    let mask = REG_D0 | REG_A0;
    let values = seq![OS9_FILE_READ, place];
    let setting = "setting registers for OS-9 file open"@;
    let calling = "opening OS-9 source file"@;
    let opening = service::call_with(
        settings,
        trace,
        line,
        mask,
        values,
        setting,
        OS9_I_OPEN,
        calling,
    );
    lemma_play_place_path(settings, path, steps, world);
    lemma_play_try::<u32, Seq<u8>, Os9Failure>(
        service::place_path(settings, path, steps),
        world,
    );
    lemma_ones();
    lemma_masks(values, one.player.d0);
    lemma_masks(values, one.player.a0);
    lemma_play_call_with(
        settings,
        trace,
        line,
        mask,
        values,
        setting,
        OS9_I_OPEN,
        calling,
        one,
    );
    lemma_play_try::<bool, Seq<u8>, Os9Failure>(opening, one);
    let set = with_values(one.player, mask, values);
    lemma_named_path(world.player.memory, path, set);
    assert(named_path(set) == text);
    assert(!names_directory(set));
    let two = with_player(one, os9_served(set, OS9_I_OPEN).0);
    if files.contains_key(text) {
        let buffer = (two.places)(two.allocated);
        let three = World {
            player: Player { area: Area::Memory(buffer as int), ..two.player },
            allocated: two.allocated + 1,
            ..two
        };
        lemma_play_allocate(settings, chunk_size, two);
        lemma_play_step::<(usize, u32), Seq<u8>>(
            stub::allocate_buffer(settings, chunk_size),
            two,
        );
        let reading = service::read_open_file(settings, path, chunk_size, trace, buffer);
        lemma_play_read_open_file(settings, path, chunk_size, trace, buffer, three, text);
        lemma_play::<Result<Seq<u8>, Os9Failure>, Result<Seq<u8>, Os9Failure>>(reading, three);
        let four = play(reading, three).1;
        lemma_play_close(
            settings,
            path,
            trace,
            Ok::<Seq<u8>, Os9Failure>(files[text]),
            "closing OS-9 source file"@,
            four,
        );
        let five = with_player(four, os9_served(four.player, OS9_I_CLOSE).0);
        assert(five.player.files == four.player.files);
        assert(play(service::get_file(settings, path, chunk_size, trace), world) == (
            Ok::<Seq<u8>, Os9Failure>(files[text]),
            five,
        ));
    } else {
        assert(os9_served(set, OS9_I_OPEN) == (set, true));
        assert(play(service::get_file(settings, path, chunk_size, trace), world) == (
            Err::<Seq<u8>, Os9Failure>(Os9Failure::OpenFile { path }),
            two,
        ));
    }
}

/// Reading an open file from its beginning.
proof fn lemma_play_read_open_file(
    settings: Settings,
    path: Seq<char>,
    chunk_size: nat,
    trace: bool,
    buffer: u32,
    world: World,
    text: Seq<u8>,
)
    requires
        idle(world),
        stub::valid_chunk_size(chunk_size),
        world.player.open == Some((text, 0nat)),
        world.player.listing is None,
        world.player.d0 == world.player.number,
        world.player.files.contains_key(text),
        world.player.files[text].len() <= usize::MAX,
    ensures
        ({
            let (outcome, now) = play(
                service::read_open_file(settings, path, chunk_size, trace, buffer),
                world,
            );
            &&& outcome == Ok::<Seq<u8>, Os9Failure>(world.player.files[text])
            &&& same_line(world, now)
            &&& now.player.files == world.player.files
            &&& now.player.directories == world.player.directories
            &&& now.player.open is Some
            &&& now.player.listing is None
            &&& now.player.d0 == now.player.number
        }),
{
    reveal(service::read_open_file);
    let mask = REG_D1 | REG_A0;
    let values = seq![chunk_size as u32, buffer];
    let file = world.player.files[text];
    lemma_ones();
    lemma_masks(values, world.player.d0);
    lemma_masks(values, world.player.d1);
    lemma_masks(values, world.player.a0);
    lemma_play_set_registers(settings, mask, values, world);
    lemma_play_step::<(), Seq<u8>>(stub::set_registers(settings, mask, values), world);
    let one = with_player(world, with_values(world.player, mask, values));
    lemma_play_file_data(settings, path, chunk_size, trace, buffer, seq![], one);
    assert(seq![] + file.skip(0) =~= file);
}

/// Reading the error code of a failed call.
proof fn lemma_play_error_code(
    settings: Settings,
    selecting: Seq<char>,
    reading: Seq<char>,
    world: World,
)
    requires
        idle(world),
    ensures
        play(service::error_code(settings, selecting, reading), world) == (
            Ok::<u32, Os9Failure>(world.player.d1),
            with_player(world, Player { area: Area::Registers(REG_D1), ..world.player }),
        ),
{
    reveal(service::error_code);
    let one = with_player(world, Player { area: Area::Registers(REG_D1), ..world.player });
    assert(2u32 & 1 == 0 && 2u32 & 2 == 2 && 2u32 & 0x100 == 0) by (bit_vector);
    assert(shown_registers(one.player, REG_D1) =~= be32(world.player.d1));
    law_numbers_round_trip(world.player.d1);
    lemma_play_select(settings, REG_D1, world);
    lemma_play_step::<(), u32>(stub::select_registers(settings, REG_D1), world);
    lemma_play_read(settings, 4, one);
    lemma_play_step::<Seq<u8>, u32>(stub::read(settings, 4), one);
}

/// On an error-free line, deleting a file of a player that does everything right
/// succeeds if there is such a file, and is refused otherwise. The file is gone
/// then, and no other file has changed.
pub proof fn law_files_can_be_deleted(
    settings: Settings,
    path: Seq<char>,
    trace: bool,
    world: World,
)
    requires
        idle(world),
        proper_path(path),
        path.len() > 0,
        path[0] == '/',
    ensures
        ({
            let (outcome, now) = play(service::delete_file(settings, path, trace), world);
            let files = world.player.files;
            let text = encode_utf8(path);
            &&& idle(now)
            &&& outcome is Ok <==> files.contains_key(text)
            &&& outcome matches Err(failure) ==> failure == Os9Failure::Delete {
                path,
                code: now.player.d1,
            }
            &&& now.player.files == files.remove(text)
            &&& now.player.directories == world.player.directories
            &&& at_rest(world.player) ==> at_rest(now.player)
        }),
{
    let text = encode_utf8(path);
    let files = world.player.files;
    let steps = service::deletion_steps();
    let place = (world.places)(world.allocated);
    let one = placed(world, path);
    let line = service::call_line("I$Delete"@, path);
    let mask = REG_D0 | REG_A0;
    let values = seq![OS9_FILE_READ_WRITE, place];
    let setting = "setting registers for OS-9 file delete"@;
    let calling = "deleting OS-9 file"@;
    let deleting = service::call_with(
        settings,
        trace,
        line,
        mask,
        values,
        setting,
        OS9_I_DELETE,
        calling,
    );
    lemma_play_place_path(settings, path, steps, world);
    lemma_play_try::<u32, (), Os9Failure>(service::place_path(settings, path, steps), world);
    lemma_ones();
    lemma_masks(values, one.player.d0);
    lemma_masks(values, one.player.a0);
    lemma_play_call_with(
        settings,
        trace,
        line,
        mask,
        values,
        setting,
        OS9_I_DELETE,
        calling,
        one,
    );
    lemma_play_try::<bool, (), Os9Failure>(deleting, one);
    let set = with_values(one.player, mask, values);
    lemma_named_path(world.player.memory, path, set);
    assert(named_path(set) == text);
    let two = with_player(one, os9_served(set, OS9_I_DELETE).0);
    if files.contains_key(text) {
        assert(play(service::delete_file(settings, path, trace), world) == (
            Ok::<(), Os9Failure>(()),
            two,
        ));
    } else {
        let selecting = "selecting OS-9 delete error register"@;
        let reading = "reading OS-9 delete error register"@;
        lemma_play_error_code(settings, selecting, reading, two);
        lemma_play_try::<u32, (), Os9Failure>(
            service::error_code(settings, selecting, reading),
            two,
        );
        let three = with_player(two, Player { area: Area::Registers(REG_D1), ..two.player });
        assert(play(service::delete_file(settings, path, trace), world) == (
            Err::<(), Os9Failure>(Os9Failure::Delete { path, code: two.player.d1 }),
            three,
        ));
    }
}

/// On an error-free line to a player that does everything right, a file that was
/// put is got again, byte for byte, whatever the settings and the sizes of the
/// chunks: both operations succeed.
pub proof fn law_put_files_are_got_again(
    put_settings: Settings,
    get_settings: Settings,
    data: Seq<u8>,
    path: Seq<char>,
    put_chunk: nat,
    get_chunk: nat,
    put_trace: bool,
    get_trace: bool,
    world: World,
    put_log: Seq<Event>,
    put_outcome: Result<(), Os9Failure>,
    get_log: Seq<Event>,
    get_outcome: Result<Seq<u8>, Os9Failure>,
)
    requires
        idle(world),
        proper_path(path),
        stub::valid_chunk_size(put_chunk),
        stub::valid_chunk_size(get_chunk),
        data.len() <= usize::MAX,
        !world.player.files.contains_key(encode_utf8(path)),
        follows(
            put_log,
            service::put_file(put_settings, data, path, put_chunk, put_trace),
            put_outcome,
        ),
        follows(
            get_log,
            service::get_file(get_settings, path, get_chunk, get_trace),
            get_outcome,
        ),
        world_after(world, put_log) is Some,
        world_after(world_after(world, put_log)->Some_0, get_log) is Some,
    ensures
        put_outcome is Ok,
        get_outcome == Ok::<Seq<u8>, Os9Failure>(data),
{
    let putting = service::put_file(put_settings, data, path, put_chunk, put_trace);
    let getting = service::get_file(get_settings, path, get_chunk, get_trace);
    let filled = world_after(world, put_log)->Some_0;
    law_records_are_played(putting, world, put_log, put_outcome);
    law_files_can_be_put(put_settings, data, path, put_chunk, put_trace, world);
    law_records_are_played(getting, filled, get_log, get_outcome);
    law_files_can_be_got(get_settings, path, get_chunk, get_trace, filled);
}

/// On an error-free line to a player that does everything right, a file that was
/// put can be deleted, and the player then has the files that it had before.
pub proof fn law_put_files_can_be_deleted(
    settings: Settings,
    data: Seq<u8>,
    path: Seq<char>,
    chunk_size: nat,
    trace: bool,
    world: World,
)
    requires
        idle(world),
        proper_path(path),
        path.len() > 0,
        path[0] == '/',
        stub::valid_chunk_size(chunk_size),
        !world.player.files.contains_key(encode_utf8(path)),
    ensures
        ({
            let filled = play(
                service::put_file(settings, data, path, chunk_size, trace),
                world,
            ).1;
            let (outcome, now) = play(service::delete_file(settings, path, trace), filled);
            &&& outcome is Ok
            &&& now.player.files == world.player.files
        }),
{
    let files = world.player.files;
    let text = encode_utf8(path);
    let putting = service::put_file(settings, data, path, chunk_size, trace);
    law_files_can_be_put(settings, data, path, chunk_size, trace, world);
    law_files_can_be_deleted(settings, path, trace, play(putting, world).1);
    assert(files.insert(text, data).remove(text) =~= files);
}

/// Writing data in chunks stores it.
proof fn lemma_play_write_chunks(
    settings: Settings,
    data: Seq<u8>,
    chunk_size: nat,
    world: World,
)
    requires
        idle(world),
        stub::valid_chunk_size(chunk_size),
        world.player.area is Memory,
    ensures
        ({
            let (outcome, now) = play(stub::write_chunks(settings, data, chunk_size), world);
            let address = world.player.area->Memory_0;
            &&& outcome == Ok::<(), Failure>(())
            &&& same_line(world, now)
            &&& forall|place: int| #[trigger]
                (now.player.memory)(place) == stored(world.player.memory, address, data)(place)
        }),
    decreases data.len(),
{
    if data.len() > 0 {
        let count = stub::chunk_length(data.len(), chunk_size) as int;
        let address = world.player.area->Memory_0;
        let chunk = data.take(count);
        let left = data.skip(count);
        let middle = with_player(world, data_written(world.player, chunk));
        lemma_play_write(settings, chunk, world);
        lemma_play_try::<(), (), Failure>(stub::write(settings, chunk), world);
        lemma_play_write_chunks(settings, left, chunk_size, middle);
        let now = play(stub::write_chunks(settings, left, chunk_size), middle).1;
        assert(play(stub::write_chunks(settings, data, chunk_size), world) == play(
            stub::write_chunks(settings, left, chunk_size),
            middle,
        ));
        assert forall|place: int| #[trigger] (now.player.memory)(place) == stored(
            world.player.memory,
            address,
            data,
        )(place) by {
            assert((now.player.memory)(place) == stored(
                middle.player.memory,
                address + count,
                left,
            )(place));
        }
    }
}

/// On an error-free line, a download to a player that does everything right
/// succeeds. Memory then holds the data from the address on, and is otherwise
/// unchanged.
pub proof fn law_memory_can_be_downloaded(
    settings: Settings,
    address: u32,
    data: Seq<u8>,
    chunk_size: nat,
    world: World,
)
    requires
        idle(world),
        stub::valid_chunk_size(chunk_size),
    ensures
        ({
            let (outcome, now) = play(
                stub::download(settings, address, data, chunk_size),
                world,
            );
            &&& outcome == Ok::<(), Failure>(())
            &&& idle(now)
            &&& forall|place: int| #[trigger]
                (now.player.memory)(place) == stored(world.player.memory, address as int, data)(
                    place,
                )
        }),
{
    let one = with_player(
        world,
        Player { area: Area::Memory(address as int), ..world.player },
    );
    lemma_play_set_address(settings, address, world);
    lemma_play_try::<(), (), Failure>(stub::set_address(settings, address), world);
    lemma_play_write_chunks(settings, data, chunk_size, one);
}

/// Reading data in chunks loads it.
proof fn lemma_play_read_chunks(
    settings: Settings,
    data: Seq<u8>,
    left: nat,
    chunk_size: nat,
    world: World,
)
    requires
        idle(world),
        stub::valid_chunk_size(chunk_size),
        world.player.area is Memory,
    ensures
        ({
            let address = world.player.area->Memory_0;
            play(stub::read_chunks(settings, data, left, chunk_size), world) == (
                Ok::<Seq<u8>, Failure>(data + loaded(world.player.memory, address, left)),
                with_player(
                    world,
                    Player { area: Area::Memory(address + left), ..world.player },
                ),
            )
        }),
    decreases left,
{
    let address = world.player.area->Memory_0;
    let memory = world.player.memory;
    if left == 0 {
        assert(data + loaded(memory, address, 0) =~= data);
    } else {
        let count = stub::chunk_length(left, chunk_size);
        let chunk = loaded(memory, address, count);
        let rest = (left - count) as nat;
        let middle = with_player(
            world,
            Player { area: Area::Memory(address + count), ..world.player },
        );
        lemma_play_read(settings, count, world);
        lemma_play_try::<Seq<u8>, Seq<u8>, Failure>(stub::read(settings, count), world);
        lemma_play_read_chunks(settings, data + chunk, rest, chunk_size, middle);
        assert(play(stub::read_chunks(settings, data, left, chunk_size), world) == play(
            stub::read_chunks(settings, data + chunk, rest, chunk_size),
            middle,
        ));
        assert(data + chunk + loaded(memory, address + count, rest) =~= data + loaded(
            memory,
            address,
            left,
        ));
    }
}

/// On an error-free line, an upload from a player that does everything right
/// succeeds. The result is what is in memory from the address on, and memory is
/// unchanged.
pub proof fn law_memory_can_be_uploaded(
    settings: Settings,
    address: u32,
    size: nat,
    chunk_size: nat,
    world: World,
)
    requires
        idle(world),
        stub::valid_chunk_size(chunk_size),
    ensures
        ({
            let (outcome, now) = play(stub::upload(settings, address, size, chunk_size), world);
            &&& outcome == Ok::<Seq<u8>, Failure>(
                loaded(world.player.memory, address as int, size),
            )
            &&& idle(now)
            &&& now.player.memory == world.player.memory
        }),
{
    let one = with_player(
        world,
        Player { area: Area::Memory(address as int), ..world.player },
    );
    lemma_play_set_address(settings, address, world);
    lemma_play_try::<(), Seq<u8>, Failure>(stub::set_address(settings, address), world);
    lemma_play_read_chunks(settings, seq![], size, chunk_size, one);
    let data = loaded(world.player.memory, address as int, size);
    assert(seq![] + data =~= data);
}

/// On an error-free line to a player that does everything right, what was
/// downloaded to an address is uploaded from there again, byte for byte, whatever
/// the sizes of the chunks: both operations succeed.
pub proof fn law_downloads_are_uploaded_again(
    settings: Settings,
    address: u32,
    data: Seq<u8>,
    download_chunk: nat,
    upload_chunk: nat,
    world: World,
)
    requires
        idle(world),
        stub::valid_chunk_size(download_chunk),
        stub::valid_chunk_size(upload_chunk),
    ensures
        ({
            let (downloaded, filled) = play(
                stub::download(settings, address, data, download_chunk),
                world,
            );
            let (uploaded, _) = play(
                stub::upload(settings, address, data.len(), upload_chunk),
                filled,
            );
            &&& downloaded is Ok
            &&& uploaded == Ok::<Seq<u8>, Failure>(data)
        }),
{
    let filled = play(stub::download(settings, address, data, download_chunk), world).1;
    law_memory_can_be_downloaded(settings, address, data, download_chunk, world);
    law_memory_can_be_uploaded(settings, address, data.len(), upload_chunk, filled);
    assert(loaded(filled.player.memory, address as int, data.len()) =~= data);
}

} // verus!
