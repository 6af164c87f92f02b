//! What a player with a full Stub is for: memory, registers and files.
//!
//! The model is that of a player that does everything right. The laws of this
//! module say what the operations of the library come to with such a player:
//! what was downloaded is uploaded again, and a file that was put is got again,
//! byte for byte.

use vstd::prelude::*;

use crate::dialogue::follows;
use crate::frame::{be32, ones, value32, REG_A0, REG_D0, REG_D1};
use crate::laws::{law_data_comes_from_the_player, law_numbers_round_trip};
use crate::line::Event;
use crate::record::lemma_first;
use crate::service;
use crate::service::{
    carry, OS9_I_CLOSE, OS9_I_CREATE, OS9_I_DELETE, OS9_I_GETSTT, OS9_I_OPEN, OS9_I_READ,
    OS9_I_WRITE,
};
use crate::stub;
use crate::stub::Settings;

verus! {

/// Something that the host asked for and was granted, with what came back.
pub enum Action {
    /// Select a memory address.
    Address(u32),
    /// Write at the selected place.
    Write(Seq<u8>),
    /// Allocate a buffer of this size; the result is its actual size and its
    /// address.
    Buffer { size: nat, result: (usize, u32) },
    /// Select registers.
    Select(u32),
    /// Set registers to values.
    SetRegisters { mask: u32, values: Seq<u32> },
    /// Make an OS-9 call; the mask says which registers changed, and whether the
    /// call failed.
    Call { call: u16, mask: u32 },
    /// Read at the selected place.
    Read { size: nat, data: Seq<u8> },
    /// Show a line to the user. The player knows nothing of it.
    Note(Seq<char>),
}

/// The record is one of the action.
#[verifier::opaque]
pub open spec fn performed(settings: Settings, action: Action, log: Seq<Event>) -> bool {
    match action {
        Action::Address(address) => follows(log, stub::set_address(settings, address), Ok(())),
        Action::Write(data) => follows(log, stub::write(settings, data), Ok(())),
        Action::Buffer { size, result } => follows(
            log,
            stub::allocate_buffer(settings, size),
            Ok(result),
        ),
        Action::Select(mask) => follows(log, stub::select_registers(settings, mask), Ok(())),
        Action::SetRegisters { mask, values } => follows(
            log,
            stub::set_registers(settings, mask, values),
            Ok(()),
        ),
        Action::Call { call, mask } => follows(log, stub::os9_call(settings, call, 0), Ok(mask)),
        Action::Read { size, data } => follows(log, stub::read(settings, size), Ok(data)),
        Action::Note(line) => follows(log, service::os9_trace(true, line), ()),
    }
}

/// The record is one of these actions, one after the other.
#[verifier::opaque]
pub open spec fn consists(settings: Settings, actions: Seq<Action>, log: Seq<Event>) -> bool
    decreases actions.len(),
{
    if actions.len() == 0 {
        log.len() == 0
    } else {
        exists|cut: int|
            #![trigger log.take(cut)]
            {
                &&& 0 <= cut <= log.len()
                &&& performed(settings, actions[0], log.take(cut))
                &&& consists(settings, actions.skip(1), log.skip(cut))
            }
    }
}

/// Where the host reads and writes.
pub enum Area {
    Memory(int),
    Registers(u32),
}

/// A player: its memory, the registers that the library uses, the files and
/// directories by their paths, the open file or directory with the position in
/// it, whether the status of that directory was asked for, and the number of the
/// open path; where code was started last, and whether the Stub was ended.
pub struct Player {
    pub area: Area,
    pub memory: spec_fn(int) -> u8,
    pub d0: u32,
    pub d1: u32,
    pub a0: u32,
    pub files: Map<Seq<u8>, Seq<u8>>,
    pub open: Option<(Seq<u8>, nat)>,
    pub directories: Map<Seq<u8>, Seq<u8>>,
    pub listing: Option<(Seq<u8>, nat)>,
    pub asked: bool,
    pub number: u32,
    pub started: Option<u32>,
    pub ended: bool,
}

/// Memory with data stored in it.
pub open spec fn stored(memory: spec_fn(int) -> u8, address: int, data: Seq<u8>) -> spec_fn(
    int,
) -> u8 {
    |place: int|
        if address <= place < address + data.len() {
            data[place - address]
        } else {
            memory(place)
        }
}

/// A stretch of memory.
pub open spec fn loaded(memory: spec_fn(int) -> u8, address: int, size: nat) -> Seq<u8> {
    Seq::new(size, |i: int| memory(address + i))
}

/// The text in memory up to the first zero byte, of at most so many bytes.
pub open spec fn text_at(memory: spec_fn(int) -> u8, address: int, limit: nat) -> Seq<u8>
    decreases limit,
{
    if limit == 0 || memory(address) == 0 {
        Seq::empty()
    } else {
        seq![memory(address)] + text_at(memory, address + 1, (limit - 1) as nat)
    }
}

/// The path that a call is about: it begins where A0 points to.
pub open spec fn named_path(player: Player) -> Seq<u8> {
    text_at(player.memory, player.a0 as int, 0x1_0000)
}

/// The value that a register gets when registers are set, in ascending order of
/// their bits.
pub open spec fn set_value(mask: u32, values: Seq<u32>, register: u32, before: u32) -> u32 {
    if mask & register != 0 {
        values[ones(mask & (register - 1) as u32) as int]
    } else {
        before
    }
}

/// The values of the selected registers, in ascending order of their bits.
pub open spec fn shown_registers(player: Player, mask: u32) -> Seq<u8> {
    (if mask & REG_D0 != 0 {
        be32(player.d0)
    } else {
        seq![]
    }) + (if mask & REG_D1 != 0 {
        be32(player.d1)
    } else {
        seq![]
    }) + (if mask & REG_A0 != 0 {
        be32(player.a0)
    } else {
        seq![]
    })
}

/// How many bytes of the open file are left.
pub open spec fn bytes_left(player: Player) -> int {
    player.files[player.open->Some_0.0].len() - player.open->Some_0.1
}

/// The registers after values were written to those that are selected.
pub open spec fn with_registers(player: Player, mask: u32, data: Seq<u8>) -> Player {
    let values = Seq::new(
        data.len() / 4,
        |i: int| value32(data.subrange(4 * i, 4 * i + 4)),
    );
    Player {
        d0: set_value(mask, values, REG_D0, player.d0),
        d1: set_value(mask, values, REG_D1, player.d1),
        a0: set_value(mask, values, REG_A0, player.a0),
        ..player
    }
}

/// The mode in D0 is that of a directory that is opened for reading.
pub open spec fn names_directory(player: Player) -> bool {
    player.d0 == 0x81
}

/// How many bytes of the open directory are left. Nothing of it can be read
/// before its status was asked for.
pub open spec fn entries_left(player: Player) -> int {
    if player.asked {
        player.directories[player.listing->Some_0.0].len() - player.listing->Some_0.1
    } else {
        0
    }
}

/// What a call on the open directory does, and whether its result is right.
pub open spec fn directory_called(player: Player, call: u16, failed: bool) -> Option<Player> {
    let (path, position) = player.listing->Some_0;
    if player.d0 != player.number {
        None
    } else if call == OS9_I_GETSTT {
        // Function zero asks for the options of the path.
        if failed || player.d1 != 0 {
            None
        } else {
            Some(Player { asked: true, ..player })
        }
    } else if call == OS9_I_READ {
        // At most D1 bytes go to where A0 points to, and D1 says how many. At
        // the end of the directory the call fails.
        let left = entries_left(player);
        let count = if left < player.d1 {
            left
        } else {
            player.d1 as int
        };
        if failed != (left <= 0) {
            None
        } else if failed {
            Some(player)
        } else {
            let data = player.directories[path].subrange(position as int, position + count);
            Some(
                Player {
                    memory: stored(player.memory, player.a0 as int, data),
                    d1: count as u32,
                    listing: Some((path, (position + count) as nat)),
                    ..player
                },
            )
        }
    } else if call == OS9_I_CLOSE {
        Some(Player { listing: None, ..player })
    } else {
        None
    }
}

/// What an OS-9 call does, and whether its result is right. Opening a path
/// leaves its number in D0, and the calls on it find it by that number.
pub open spec fn called(player: Player, call: u16, failed: bool) -> Option<Player> {
    let path = named_path(player);
    if call == OS9_I_CREATE {
        // A file is created only if there is none of that name. It is opened for
        // reading and writing, and its owner may do both.
        if player.d0 != 3 || player.d1 != 3 || failed != player.files.contains_key(path) {
            None
        } else if failed {
            Some(player)
        } else {
            Some(
                Player {
                    d0: player.number,
                    files: player.files.insert(path, Seq::empty()),
                    open: Some((path, 0)),
                    listing: None,
                    ..player
                },
            )
        }
    } else if call == OS9_I_OPEN && names_directory(player) {
        if failed == player.directories.contains_key(path) {
            None
        } else if failed {
            Some(player)
        } else {
            Some(
                Player {
                    d0: player.number,
                    open: None,
                    listing: Some((path, 0)),
                    asked: false,
                    ..player
                },
            )
        }
    } else if call == OS9_I_OPEN {
        // A file is opened for reading.
        if player.d0 != 1 || failed == player.files.contains_key(path) {
            None
        } else if failed {
            Some(player)
        } else {
            Some(Player { d0: player.number, open: Some((path, 0)), listing: None, ..player })
        }
    } else if player.listing is Some && call != OS9_I_DELETE {
        directory_called(player, call, failed)
    } else if call == OS9_I_DELETE {
        if player.d0 != 3 || failed == player.files.contains_key(path) {
            None
        } else {
            Some(Player { files: player.files.remove(path), ..player })
        }
    } else {
        match player.open {
            Some((path, position)) if player.d0 == player.number => if call == OS9_I_WRITE {
                // D1 bytes from A0 on are appended.
                if failed || position != player.files[path].len() {
                    None
                } else {
                    let data = loaded(player.memory, player.a0 as int, player.d1 as nat);
                    Some(
                        Player {
                            files: player.files.insert(path, player.files[path] + data),
                            open: Some((path, position + data.len())),
                            ..player
                        },
                    )
                }
            } else if call == OS9_I_READ {
                // At most D1 bytes go to where A0 points to, and D1 says how
                // many. At the end of the file the call fails.
                let left = bytes_left(player);
                let count = if left < player.d1 {
                    left
                } else {
                    player.d1 as int
                };
                if failed != (left <= 0) {
                    None
                } else if failed {
                    Some(player)
                } else {
                    let data = player.files[path].subrange(position as int, position + count);
                    Some(
                        Player {
                            memory: stored(player.memory, player.a0 as int, data),
                            d1: count as u32,
                            open: Some((path, (position + count) as nat)),
                            ..player
                        },
                    )
                }
            } else if call == OS9_I_CLOSE {
                Some(Player { open: None, ..player })
            } else {
                None
            },
            _ => None,
        }
    }
}

/// What a player does that does everything right; nothing if the result of the
/// action is not the one that such a player gives.
pub open spec fn step(player: Player, action: Action) -> Option<Player> {
    match action {
        Action::Address(address) => Some(Player { area: Area::Memory(address as int), ..player }),
        Action::Write(data) => match player.area {
            Area::Memory(address) => Some(
                Player {
                    area: Area::Memory(address + data.len()),
                    memory: stored(player.memory, address, data),
                    ..player
                },
            ),
            Area::Registers(mask) => if data.len() == 4 * ones(mask) {
                Some(with_registers(player, mask, data))
            } else {
                None
            },
        },
        Action::Buffer { size: _, result } => Some(
            Player { area: Area::Memory(result.1 as int), ..player },
        ),
        Action::Select(mask) => Some(Player { area: Area::Registers(mask), ..player }),
        Action::SetRegisters { mask, values } => Some(
            Player {
                area: Area::Registers(mask),
                d0: set_value(mask, values, REG_D0, player.d0),
                d1: set_value(mask, values, REG_D1, player.d1),
                a0: set_value(mask, values, REG_A0, player.a0),
                ..player
            },
        ),
        Action::Call { call, mask } => called(player, call, carry(mask)),
        Action::Read { size, data } => match player.area {
            Area::Memory(address) => if data == loaded(player.memory, address, size) {
                Some(Player { area: Area::Memory(address + size), ..player })
            } else {
                None
            },
            Area::Registers(mask) => if size <= shown_registers(player, mask).len() && data
                == shown_registers(player, mask).take(size as int) {
                Some(player)
            } else {
                None
            },
        },
        Action::Note(_) => Some(player),
    }
}

/// What a player does in a row of actions.
pub open spec fn run(player: Player, actions: Seq<Action>) -> Option<Player>
    decreases actions.len(),
{
    if actions.len() == 0 {
        Some(player)
    } else {
        match step(player, actions[0]) {
            Some(next) => run(next, actions.skip(1)),
            None => None,
        }
    }
}

/// Two rows of actions, one after the other.
pub proof fn lemma_run_concat(player: Player, first: Seq<Action>, second: Seq<Action>)
    ensures
        run(player, first + second) == match run(player, first) {
            Some(middle) => run(middle, second),
            None => None,
        },
    decreases first.len(),
{
    if first.len() == 0 {
        assert(first + second =~= second);
    } else {
        assert((first + second).skip(1) =~= first.skip(1) + second);
        if let Some(next) = step(player, first[0]) {
            lemma_run_concat(next, first.skip(1), second);
        }
    }
}

/// The record of two rows of actions.
pub proof fn lemma_consists_concat(
    settings: Settings,
    first: Seq<Action>,
    first_log: Seq<Event>,
    second: Seq<Action>,
    second_log: Seq<Event>,
)
    requires
        consists(settings, first, first_log),
        consists(settings, second, second_log),
    ensures
        consists(settings, first + second, first_log + second_log),
    decreases first.len(),
{
    reveal(consists);
    if first.len() == 0 {
        assert(first + second =~= second);
        assert(first_log + second_log =~= second_log);
    } else {
        let cut = choose|cut: int|
            #![trigger first_log.take(cut)]
            {
                &&& 0 <= cut <= first_log.len()
                &&& performed(settings, first[0], first_log.take(cut))
                &&& consists(settings, first.skip(1), first_log.skip(cut))
            };
        lemma_consists_concat(settings, first.skip(1), first_log.skip(cut), second, second_log);
        let log = first_log + second_log;
        assert((first + second).skip(1) =~= first.skip(1) + second);
        assert(log.take(cut) =~= first_log.take(cut));
        assert(log.skip(cut) =~= first_log.skip(cut) + second_log);
    }
}

/// The record of a single action.
pub proof fn lemma_consists_one(settings: Settings, action: Action, log: Seq<Event>)
    requires
        performed(settings, action, log),
    ensures
        consists(settings, seq![action], log),
{
    reveal_with_fuel(consists, 2);
    let cut = log.len() as int;
    assert(log.take(cut) =~= log);
    let actions = seq![action];
    assert(actions.skip(1) =~= Seq::empty());
    assert(consists(settings, actions.skip(1), log.skip(cut)));
    assert(performed(settings, actions[0], log.take(cut)));
}

/// The record of no action is empty.
pub proof fn lemma_consists_none(settings: Settings, log: Seq<Event>)
    requires
        log.len() == 0,
    ensures
        consists(settings, Seq::empty(), log),
{
    reveal(consists);
}

/// What is loaded from where data was stored.
pub proof fn lemma_loaded(memory: spec_fn(int) -> u8, address: int, data: Seq<u8>)
    ensures
        loaded(stored(memory, address, data), address, data.len()) == data,
{
    assert(loaded(stored(memory, address, data), address, data.len()) =~= data);
}

/// A path that was stored with a zero byte behind it is found.
pub proof fn lemma_text_at(memory: spec_fn(int) -> u8, address: int, text: Seq<u8>, limit: nat)
    requires
        text.len() < limit,
        forall|i: int| 0 <= i < text.len() ==> text[i] != 0 && #[trigger] text[i] == memory(
            address + i,
        ),
        memory(address + text.len()) == 0,
    ensures
        text_at(memory, address, limit) == text,
    decreases text.len(),
{
    if text.len() == 0 {
        assert(text =~= Seq::empty());
    } else {
        let rest = text.skip(1);
        assert(text[0] == memory(address + 0));
        assert forall|i: int| 0 <= i < rest.len() implies rest[i] != 0 && #[trigger] rest[i]
            == memory(address + 1 + i) by {
            assert(rest[i] == text[i + 1]);
        }
        lemma_text_at(memory, address + 1, rest, (limit - 1) as nat);
        assert(text =~= seq![text[0]] + rest);
    }
}

/// Which values the registers get for the masks that the library uses.
pub proof fn lemma_masks(values: Seq<u32>, before: u32)
    ensures
        set_value(REG_D0 | REG_A0, values, REG_D0, before) == values[0],
        set_value(REG_D0 | REG_A0, values, REG_D1, before) == before,
        set_value(REG_D0 | REG_A0, values, REG_A0, before) == values[1],
        set_value(REG_D1 | REG_A0, values, REG_D0, before) == before,
        set_value(REG_D1 | REG_A0, values, REG_D1, before) == values[0],
        set_value(REG_D1 | REG_A0, values, REG_A0, before) == values[1],
        set_value(REG_D0 | REG_D1 | REG_A0, values, REG_D0, before) == values[0],
        set_value(REG_D0 | REG_D1 | REG_A0, values, REG_D1, before) == values[1],
        set_value(REG_D0 | REG_D1 | REG_A0, values, REG_A0, before) == values[2],
        set_value(REG_D1, values, REG_D0, before) == before,
        set_value(REG_D1, values, REG_D1, before) == values[0],
        set_value(REG_D1, values, REG_A0, before) == before,
        (REG_D0 | REG_D1) & REG_D0 != 0,
        (REG_D0 | REG_D1) & REG_D1 != 0,
        (REG_D0 | REG_D1) & REG_A0 == 0,
{
    reveal_with_fuel(ones, 4);
    assert(0x101u32 & 1 == 1 && 0x101u32 & 2 == 0 && 0x101u32 & 0x100 == 0x100 && 0x101u32 & 0
        == 0 && 0x101u32 & 0xff == 1) by (bit_vector);
    assert(0x102u32 & 1 == 0 && 0x102u32 & 2 == 2 && 0x102u32 & 0x100 == 0x100 && 0x102u32 & 1 == 0
        && 0x102u32 & 0xff == 2) by (bit_vector);
    assert(0x103u32 & 1 == 1 && 0x103u32 & 2 == 2 && 0x103u32 & 0x100 == 0x100 && 0x103u32 & 0 == 0
        && 0x103u32 & 0xff == 3) by (bit_vector);
    assert(2u32 & 1 == 0 && 2u32 & 2 == 2 && 2u32 & 0x100 == 0) by (bit_vector);
    assert(3u32 & 1 == 1 && 3u32 & 2 == 2 && 3u32 & 0x100 == 0) by (bit_vector);
    assert(1u32 | 0x100u32 == 0x101u32 && 2u32 | 0x100u32 == 0x102u32 && 1u32 | 2u32 | 0x100u32
        == 0x103u32 && 1u32 | 2u32 == 3u32) by (bit_vector);
}

/// Numbers that stand one after the other.
pub proof fn lemma_be32_list(values: Seq<u32>)
    ensures
        stub::be32_list(values).len() == 4 * values.len(),
        forall|i: int|
            0 <= i < values.len() ==> #[trigger] stub::be32_list(values).subrange(4 * i, 4 * i + 4)
                == be32(values[i]),
    decreases values.len(),
{
    if values.len() > 0 {
        let front = values.drop_last();
        lemma_be32_list(front);
        let bytes = stub::be32_list(values);
        assert forall|i: int| 0 <= i < values.len() implies #[trigger] bytes.subrange(
            4 * i,
            4 * i + 4,
        ) == be32(values[i]) by {
            if i < front.len() {
                assert(bytes.subrange(4 * i, 4 * i + 4) =~= stub::be32_list(front).subrange(
                    4 * i,
                    4 * i + 4,
                ));
            } else {
                assert(bytes.subrange(4 * i, 4 * i + 4) =~= be32(values.last()));
            }
        }
    }
}

/// Setting registers is selecting them and writing their values in big-endian
/// order.
pub proof fn law_registers_are_set_by_writing(player: Player, mask: u32, values: Seq<u32>)
    requires
        values.len() == ones(mask),
    ensures
        step(player, Action::SetRegisters { mask, values }) == run(
            player,
            seq![Action::Select(mask), Action::Write(stub::be32_list(values))],
        ),
{
    let data = stub::be32_list(values);
    let select = Action::Select(mask);
    let write = Action::Write(data);
    let actions = seq![select, write];
    lemma_be32_list(values);
    let written = Seq::new(data.len() / 4, |i: int| value32(data.subrange(4 * i, 4 * i + 4)));
    assert forall|i: int| 0 <= i < values.len() implies written[i] == values[i] by {
        assert(data.subrange(4 * i, 4 * i + 4) == be32(values[i]));
        law_numbers_round_trip(values[i]);
    }
    assert(written =~= values);
    let selected = step(player, select)->Some_0;
    assert(actions.skip(1) =~= seq![write]);
    assert(actions.skip(1).skip(1) =~= Seq::empty());
    let after = step(selected, write)->Some_0;
    assert(run(after, actions.skip(1).skip(1)) == Some(after));
    assert(run(selected, actions.skip(1)) == Some(after));
    assert(run(player, actions) == Some(after));
}

/// The actions fill memory with data from the selected place on, and change
/// nothing else.
pub open spec fn fills(actions: Seq<Action>, data: Seq<u8>) -> bool {
    forall|player: Player|
        #![trigger run(player, actions)]
        player.area is Memory ==> {
            let address = player.area->Memory_0;
            let after = run(player, actions)->Some_0;
            &&& run(player, actions) is Some
            &&& after.area == Area::Memory(address + data.len())
            &&& after == (Player { area: after.area, memory: after.memory, ..player })
            &&& forall|place: int| #[trigger]
                (after.memory)(place) == stored(player.memory, address, data)(place)
        }
}

/// No action fills memory with nothing.
proof fn lemma_fills_nothing()
    ensures
        fills(Seq::empty(), Seq::empty()),
{
}

/// One more write in front fills memory with more.
proof fn lemma_fills_more(chunk: Seq<u8>, later: Seq<Action>, left: Seq<u8>)
    requires
        fills(later, left),
    ensures
        fills(seq![Action::Write(chunk)] + later, chunk + left),
{
    let action = Action::Write(chunk);
    let actions = seq![action] + later;
    let data = chunk + left;
    assert(actions.skip(1) =~= later);
    assert forall|player: Player|
        #![trigger run(player, actions)]
        player.area is Memory implies {
        let address = player.area->Memory_0;
        let after = run(player, actions)->Some_0;
        &&& run(player, actions) is Some
        &&& after.area == Area::Memory(address + data.len())
        &&& after == (Player { area: after.area, memory: after.memory, ..player })
        &&& forall|place: int| #[trigger]
            (after.memory)(place) == stored(player.memory, address, data)(place)
    } by {
        let address = player.area->Memory_0;
        let middle = step(player, action)->Some_0;
        assert(run(player, actions) == run(middle, later));
        let after = run(middle, later)->Some_0;
        assert forall|place: int| #[trigger] (after.memory)(place) == stored(
            player.memory,
            address,
            data,
        )(place) by {
            assert((after.memory)(place) == stored(middle.memory, address + chunk.len(), left)(
                place,
            ));
        }
    }
}

/// Writing data in chunks fills memory with it.
proof fn lemma_write_chunks(
    settings: Settings,
    data: Seq<u8>,
    chunk_size: nat,
    log: Seq<Event>,
) -> (actions: Seq<Action>)
    requires
        follows(log, stub::write_chunks(settings, data, chunk_size), Ok(())),
        chunk_size > 0,
    ensures
        consists(settings, actions, log),
        fills(actions, data),
    decreases data.len(),
{
    if data.len() == 0 {
        assert(log.len() == 0);
        assert(data =~= Seq::empty());
        lemma_consists_none(settings, log);
        lemma_fills_nothing();
        Seq::empty()
    } else {
        let whole = stub::write_chunks(settings, data, chunk_size);
        let count = stub::chunk_length(data.len(), chunk_size);
        let chunk = data.take(count as int);
        let left = data.skip(count as int);
        let (first, written, rest, _) = lemma_first(
            stub::write(settings, chunk),
            whole,
            log,
            Ok(()),
        );
        assert(written is Ok) by {
            if written is Err {
                assert(rest.len() == 0);
            }
        }
        let action = Action::Write(chunk);
        let later = lemma_write_chunks(settings, left, chunk_size, rest);
        assert(performed(settings, action, first)) by {
            reveal(performed);
        }
        lemma_consists_one(settings, action, first);
        lemma_consists_concat(settings, seq![action], first, later, rest);
        lemma_fills_more(chunk, later, left);
        assert(chunk + left =~= data);
        seq![action] + later
    }
}

/// The actions of a download.
proof fn lemma_download(
    settings: Settings,
    address: u32,
    data: Seq<u8>,
    chunk_size: nat,
    log: Seq<Event>,
) -> (actions: Seq<Action>)
    requires
        follows(log, stub::download(settings, address, data, chunk_size), Ok(())),
    ensures
        consists(settings, actions, log),
        forall|player: Player|
            #![trigger run(player, actions)]
            {
                let after = run(player, actions)->Some_0;
                &&& run(player, actions) is Some
                &&& after == (Player { area: after.area, memory: after.memory, ..player })
                &&& forall|place: int| #[trigger]
                    (after.memory)(place) == stored(player.memory, address as int, data)(place)
            },
{
    let whole = stub::download(settings, address, data, chunk_size);
    let (first, addressed, rest, _) = lemma_first(
        stub::set_address(settings, address),
        whole,
        log,
        Ok(()),
    );
    assert(addressed is Ok) by {
        if addressed is Err {
            assert(rest.len() == 0);
        }
    }
    let action = Action::Address(address);
    let later = lemma_write_chunks(settings, data, chunk_size, rest);
    assert(performed(settings, action, first)) by {
        reveal(performed);
    }
    lemma_consists_one(settings, action, first);
    lemma_consists_concat(settings, seq![action], first, later, rest);
    let actions = seq![action] + later;
    assert(actions.skip(1) =~= later);
    assert forall|player: Player|
        #![trigger run(player, actions)]
        {
        let after = run(player, actions)->Some_0;
        &&& run(player, actions) is Some
        &&& after == (Player { area: after.area, memory: after.memory, ..player })
        &&& forall|place: int| #[trigger]
            (after.memory)(place) == stored(player.memory, address as int, data)(place)
    } by {
        let middle = step(player, action)->Some_0;
        assert(run(player, actions) == run(middle, later));
    }
    actions
}

/// A download that succeeds has put all of the data into the player's memory,
/// from the address on, and changed nothing else there.
pub proof fn law_downloads_fill_memory(
    settings: Settings,
    address: u32,
    data: Seq<u8>,
    chunk_size: nat,
    log: Seq<Event>,
)
    requires
        follows(log, stub::download(settings, address, data, chunk_size), Ok(())),
    ensures
        exists|actions: Seq<Action>| #[trigger]
            consists(settings, actions, log) && forall|player: Player|
                #![trigger run(player, actions)]
                {
                    let after = run(player, actions)->Some_0;
                    &&& run(player, actions) is Some
                    &&& loaded(after.memory, address as int, data.len()) == data
                    &&& forall|place: int|
                        !(address <= place < address + data.len()) ==> #[trigger] (after.memory)(
                            place,
                        ) == (player.memory)(place)
                },
{
    let actions = lemma_download(settings, address, data, chunk_size, log);
    assert forall|player: Player|
        #![trigger run(player, actions)]
        {
        let after = run(player, actions)->Some_0;
        &&& run(player, actions) is Some
        &&& loaded(after.memory, address as int, data.len()) == data
        &&& forall|place: int|
            !(address <= place < address + data.len()) ==> #[trigger] (after.memory)(place) == (
            player.memory)(place)
    } by {
        let after = run(player, actions)->Some_0;
        assert(loaded(after.memory, address as int, data.len()) =~= data);
    }
}

/// The actions read data from the selected place on.
pub open spec fn reads(actions: Seq<Action>, data: Seq<u8>) -> bool {
    forall|player: Player|
        #![trigger run(player, actions)]
        player.area is Memory ==> {
            let address = player.area->Memory_0;
            run(player, actions) == if data == loaded(player.memory, address, data.len()) {
                Some(Player { area: Area::Memory(address + data.len()), ..player })
            } else {
                None
            }
        }
}

/// No action reads nothing.
proof fn lemma_reads_nothing()
    ensures
        reads(Seq::empty(), Seq::empty()),
{
    let actions = Seq::<Action>::empty();
    let data = Seq::<u8>::empty();
    assert forall|player: Player|
        #![trigger run(player, actions)]
        player.area is Memory implies {
        let address = player.area->Memory_0;
        run(player, actions) == if data == loaded(player.memory, address, data.len()) {
            Some(Player { area: Area::Memory(address + data.len()), ..player })
        } else {
            None
        }
    } by {
        assert(loaded(player.memory, player.area->Memory_0, 0) =~= data);
    }
}

/// One more read in front reads more.
proof fn lemma_reads_more(chunk: Seq<u8>, later: Seq<Action>, rest: Seq<u8>)
    requires
        reads(later, rest),
    ensures
        reads(seq![Action::Read { size: chunk.len(), data: chunk }] + later, chunk + rest),
{
    let action = Action::Read { size: chunk.len(), data: chunk };
    let actions = seq![action] + later;
    let data = chunk + rest;
    assert(actions.skip(1) =~= later);
    assert forall|player: Player|
        #![trigger run(player, actions)]
        player.area is Memory implies {
        let address = player.area->Memory_0;
        run(player, actions) == if data == loaded(player.memory, address, data.len()) {
            Some(Player { area: Area::Memory(address + data.len()), ..player })
        } else {
            None
        }
    } by {
        let address = player.area->Memory_0;
        let (m, n) = (chunk.len(), rest.len());
        let all = loaded(player.memory, address, data.len());
        let front = loaded(player.memory, address, m);
        let back = loaded(player.memory, address + m, n);
        assert(all =~= front + back);
        assert(data.take(m as int) =~= chunk && data.skip(m as int) =~= rest);
        assert(all.take(m as int) =~= front && all.skip(m as int) =~= back);
        if chunk == front {
            let middle = step(player, action)->Some_0;
            assert(run(player, actions) == run(middle, later));
        }
    }
}

/// Reading data in chunks reads what is in memory.
proof fn lemma_read_chunks(
    settings: Settings,
    before: Seq<u8>,
    left: nat,
    chunk_size: nat,
    log: Seq<Event>,
    all: Seq<u8>,
) -> (actions: Seq<Action>)
    requires
        follows(log, stub::read_chunks(settings, before, left, chunk_size), Ok(all)),
        1 <= chunk_size <= 0xffff,
    ensures
        consists(settings, actions, log),
        all.len() == before.len() + left,
        all.take(before.len() as int) == before,
        reads(actions, all.skip(before.len() as int)),
    decreases left,
{
    if left == 0 {
        assert(log.len() == 0);
        assert(all.take(before.len() as int) =~= before);
        assert(all.skip(before.len() as int) =~= Seq::empty());
        lemma_consists_none(settings, log);
        lemma_reads_nothing();
        Seq::empty()
    } else {
        let whole = stub::read_chunks(settings, before, left, chunk_size);
        let count = stub::chunk_length(left, chunk_size);
        let (first, read, rest, _) = lemma_first(
            stub::read(settings, count),
            whole,
            log,
            Ok(all),
        );
        assert(read is Ok) by {
            if read is Err {
                assert(rest.len() == 0);
            }
        }
        let chunk = read->Ok_0;
        law_data_comes_from_the_player(settings, count, first, read);
        let action = Action::Read { size: count, data: chunk };
        let remaining = (left - count) as nat;
        let later = lemma_read_chunks(settings, before + chunk, remaining, chunk_size, rest, all);
        assert(performed(settings, action, first)) by {
            reveal(performed);
        }
        lemma_consists_one(settings, action, first);
        lemma_consists_concat(settings, seq![action], first, later, rest);
        let actions = seq![action] + later;
        let mine = all.skip(before.len() as int);
        let end = (before + chunk).len() as int;
        assert(all.take(before.len() as int) =~= all.take(end).take(before.len() as int));
        assert((before + chunk).take(before.len() as int) =~= before);
        assert(mine.take(count as int) =~= all.take(end).skip(before.len() as int));
        assert((before + chunk).skip(before.len() as int) =~= chunk);
        let rest_data = all.skip(end);
        assert(mine =~= chunk + rest_data);
        lemma_reads_more(chunk, later, rest_data);
        actions
    }
}

/// The actions of an upload.
proof fn lemma_upload(
    settings: Settings,
    address: u32,
    size: nat,
    chunk_size: nat,
    log: Seq<Event>,
    data: Seq<u8>,
) -> (actions: Seq<Action>)
    requires
        follows(log, stub::upload(settings, address, size, chunk_size), Ok(data)),
    ensures
        consists(settings, actions, log),
        data.len() == size,
        forall|player: Player|
            #![trigger run(player, actions)]
            {
                &&& run(player, actions) is Some <==> data == loaded(
                    player.memory,
                    address as int,
                    size,
                )
                &&& run(player, actions) matches Some(after) ==> after == (Player {
                    area: after.area,
                    ..player
                })
            },
{
    let whole = stub::upload(settings, address, size, chunk_size);
    let (first, addressed, rest, _) = lemma_first(
        stub::set_address(settings, address),
        whole,
        log,
        Ok(data),
    );
    assert(addressed is Ok) by {
        if addressed is Err {
            assert(rest.len() == 0);
        }
    }
    let action = Action::Address(address);
    let later = lemma_read_chunks(settings, seq![], size, chunk_size, rest, data);
    assert(performed(settings, action, first)) by {
        reveal(performed);
    }
    lemma_consists_one(settings, action, first);
    lemma_consists_concat(settings, seq![action], first, later, rest);
    let actions = seq![action] + later;
    assert(actions.skip(1) =~= later);
    assert(data.skip(0) =~= data);
    assert forall|player: Player|
        #![trigger run(player, actions)]
        {
        &&& run(player, actions) is Some <==> data == loaded(player.memory, address as int, size)
        &&& run(player, actions) matches Some(after) ==> after == (Player {
            area: after.area,
            ..player
        })
    } by {
        let middle = step(player, action)->Some_0;
        assert(run(player, actions) == run(middle, later));
    }
    actions
}

/// An upload that succeeds returns what is in the player's memory, from the
/// address on, and changes nothing there.
pub proof fn law_uploads_read_memory(
    settings: Settings,
    address: u32,
    size: nat,
    chunk_size: nat,
    log: Seq<Event>,
    data: Seq<u8>,
)
    requires
        follows(log, stub::upload(settings, address, size, chunk_size), Ok(data)),
    ensures
        exists|actions: Seq<Action>| #[trigger]
            consists(settings, actions, log) && forall|player: Player|
                #![trigger run(player, actions)]
                {
                    &&& run(player, actions) is Some <==> data == loaded(
                        player.memory,
                        address as int,
                        size,
                    )
                    &&& run(player, actions) matches Some(after) ==> after.memory == player.memory
                },
{
    let actions = lemma_upload(settings, address, size, chunk_size, log, data);
    assert(consists(settings, actions, log));
}

/// What was downloaded to an address is uploaded from there again, byte for
/// byte, whatever the sizes of the chunks: a player that does everything right
/// gives this data back, and no other.
pub proof fn law_memory_round_trips(
    settings: Settings,
    address: u32,
    data: Seq<u8>,
    download_chunk: nat,
    upload_chunk: nat,
    download_log: Seq<Event>,
    upload_log: Seq<Event>,
    uploaded: Seq<u8>,
)
    requires
        follows(
            download_log,
            stub::download(settings, address, data, download_chunk),
            Ok(()),
        ),
        follows(
            upload_log,
            stub::upload(settings, address, data.len(), upload_chunk),
            Ok(uploaded),
        ),
    ensures
        exists|first: Seq<Action>, second: Seq<Action>| #[trigger]
            consists(settings, first, download_log) && #[trigger] consists(
                settings,
                second,
                upload_log,
            ) && forall|player: Player|
                #![trigger run(player, first + second)]
                run(player, first + second) is Some <==> uploaded == data,
{
    let first = lemma_download(settings, address, data, download_chunk, download_log);
    let second = lemma_upload(
        settings,
        address,
        data.len(),
        upload_chunk,
        upload_log,
        uploaded,
    );
    assert forall|player: Player|
        #![trigger run(player, first + second)]
        run(player, first + second) is Some <==> uploaded == data by {
        lemma_run_concat(player, first, second);
        let middle = run(player, first)->Some_0;
        assert(run(player, first) is Some);
        assert(run(middle, second) is Some <==> uploaded == loaded(
            middle.memory,
            address as int,
            data.len(),
        ));
        assert(loaded(middle.memory, address as int, data.len()) =~= data);
    }
}

} // verus!
