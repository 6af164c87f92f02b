//! What the requests of a session come to on an error-free line to a player that
//! does everything right.

use vstd::arithmetic::div_mod::lemma_div_denominator;
use vstd::arithmetic::power2::{lemma2_to64, lemma_pow2_pos, lemma_pow2_unfold, pow2};
use vstd::prelude::*;

use crate::dialogue::Dialogue;
use crate::error::Failure;
use crate::frame::{
    be32, ones, request_frame, response_frame, ACK, BAUDRATE, END, EXECUTE, REG_A0, REG_D0, REG_D1,
    SOH,
};
use crate::laws::{announces, law_numbers_round_trip};
use crate::player::{lemma_loaded, lemma_masks, shown_registers, stored, Area, Player};
use crate::stub;
use crate::stub::{io_failure, Settings};
use crate::transport::IoErrorKind;
use crate::world::{
    idle, lemma_play_allocate, lemma_play_answer, lemma_play_body, lemma_play_expected,
    lemma_play_notification, lemma_play_plain, lemma_play_read, lemma_play_request,
    lemma_play_select, lemma_play_set_address, lemma_play_set_registers, lemma_play_try,
    lemma_play_write, play, with_player, World,
};
use crate::world_files::{law_memory_can_be_downloaded, lemma_ones};

verus! {

/// The player is told to start code exactly where it was asked for, and nothing
/// else happens to it.
pub proof fn law_code_is_started(settings: Settings, address: u32, world: World)
    requires
        idle(world),
    ensures
        play(stub::execute(settings, address), world) == (
            Ok::<(), Failure>(()),
            with_player(world, Player { started: Some(address), ..world.player }),
        ),
{
    lemma_play_plain(settings, EXECUTE, be32(address), "execute request"@, world);
    law_numbers_round_trip(address);
}

/// Code that was downloaded is started where it was downloaded to.
pub proof fn law_downloaded_code_is_started(
    settings: Settings,
    address: u32,
    data: Seq<u8>,
    chunk_size: nat,
    world: World,
)
    requires
        idle(world),
        stub::valid_chunk_size(chunk_size),
        data.len() > 0,
    ensures
        ({
            let (downloaded, filled) = play(
                stub::download(settings, address, data, chunk_size),
                world,
            );
            let (started, now) = play(stub::execute(settings, address), filled);
            &&& downloaded is Ok
            &&& started is Ok
            &&& now.player.started matches Some(at) && forall|i: int|
                0 <= i < data.len() ==> (now.player.memory)(at + i) == #[trigger] data[i]
        }),
{
    let filled = play(stub::download(settings, address, data, chunk_size), world).1;
    law_memory_can_be_downloaded(settings, address, data, chunk_size, world);
    law_code_is_started(settings, address, filled);
    let now = play(stub::execute(settings, address), filled).1;
    assert forall|i: int| 0 <= i < data.len() implies (now.player.memory)(address + i)
        == #[trigger] data[i] by {
        assert((filled.player.memory)(address + i) == stored(
            world.player.memory,
            address as int,
            data,
        )(address + i));
    }
}

/// The Stub is ended, and nothing else happens to the player.
pub proof fn law_the_stub_is_ended(settings: Settings, world: World)
    requires
        idle(world),
    ensures
        play(stub::end(settings), world) == (
            Ok::<(), Failure>(()),
            with_player(world, Player { ended: true, ..world.player }),
        ),
{
    lemma_play_plain(settings, END, seq![], "end request"@, world);
}

/// The speed that is agreed on is the one that the player chooses for the speed
/// that was asked for.
pub proof fn law_speeds_are_agreed_on(settings: Settings, desired: u32, world: World)
    requires
        idle(world),
    ensures
        play(stub::negotiate_baud_rate(settings, desired), world) == (
            Ok::<u32, Failure>((world.speeds)(desired)),
            world,
        ),
{
    let body = be32(desired);
    let chosen = (world.speeds)(desired);
    let response = be32(chosen);
    let rejection = Failure::RetryLimitExceeded {
        operation: "baud-rate response"@,
        attempts: 1,
    };
    law_numbers_round_trip(desired);
    law_numbers_round_trip(chosen);
    lemma_play_request(settings, BAUDRATE, body, "baud-rate request"@, world);
    let heard = World { outbox: response_frame(BAUDRATE, response), ..world };
    let rest = World { outbox: heard.outbox.skip(2), ..heard };
    let last = World { outbox: Seq::empty(), ..heard };
    lemma_play_expected(settings, BAUDRATE, response, heard);
    lemma_play_body(settings, BAUDRATE, response, rejection, rest);
    assert(last.outbox =~= world.outbox);
    lemma_play_try::<(), u32, Failure>(
        stub::send_acknowledged(settings, request_frame(BAUDRATE, body), "baud-rate request"@),
        world,
    );
    lemma_play_try::<(), u32, Failure>(stub::expect_header(settings, BAUDRATE), heard);
    lemma_play_try::<Seq<u8>, u32, Failure>(
        stub::read_response_body(settings, BAUDRATE, 4, rejection),
        rest,
    );
}

/// A buffer of the size that was asked for is where the player says it is, and is
/// the place of the next data.
pub proof fn law_buffers_are_allocated(settings: Settings, size: nat, world: World)
    requires
        idle(world),
        1 <= size <= 0xffff,
    ensures
        ({
            let place = (world.places)(world.allocated);
            let (outcome, now) = play(stub::allocate_buffer(settings, size), world);
            &&& outcome == Ok::<(usize, u32), Failure>((size as usize, place))
            &&& idle(now)
            &&& now.player == (Player { area: Area::Memory(place as int), ..world.player })
        }),
{
    lemma_play_allocate(settings, size, world);
}

/// What was written at an address is read from there again, byte for byte, in one
/// request each.
pub proof fn law_writes_are_read_again(
    settings: Settings,
    address: u32,
    data: Seq<u8>,
    world: World,
)
    requires
        idle(world),
        1 <= data.len() <= 0xffff,
    ensures
        ({
            let (_, one) = play(stub::set_address(settings, address), world);
            let (written, two) = play(stub::write(settings, data), one);
            let (_, three) = play(stub::set_address(settings, address), two);
            let (read, four) = play(stub::read(settings, data.len()), three);
            &&& written is Ok
            &&& read == Ok::<Seq<u8>, Failure>(data)
            &&& idle(four)
        }),
{
    lemma_play_set_address(settings, address, world);
    let one = play(stub::set_address(settings, address), world).1;
    lemma_play_write(settings, data, one);
    let two = play(stub::write(settings, data), one).1;
    lemma_play_set_address(settings, address, two);
    let three = play(stub::set_address(settings, address), two).1;
    lemma_play_read(settings, data.len(), three);
    lemma_loaded(world.player.memory, address as int, data);
}

/// The registers D0, D1 and A0 hold what they were set to, in this order, and are
/// read again as such.
pub proof fn law_registers_are_read_again(
    settings: Settings,
    first: u32,
    second: u32,
    third: u32,
    world: World,
)
    requires
        idle(world),
    ensures
        ({
            let mask = REG_D0 | REG_D1 | REG_A0;
            let (set, one) = play(
                stub::set_registers(settings, mask, seq![first, second, third]),
                world,
            );
            let (_, two) = play(stub::select_registers(settings, mask), one);
            let (read, three) = play(stub::read(settings, 12), two);
            &&& set is Ok
            &&& one.player.d0 == first && one.player.d1 == second && one.player.a0 == third
            &&& read == Ok::<Seq<u8>, Failure>(be32(first) + be32(second) + be32(third))
            &&& idle(three)
        }),
{
    let mask = REG_D0 | REG_D1 | REG_A0;
    let values = seq![first, second, third];
    lemma_ones();
    lemma_masks(values, world.player.d0);
    lemma_masks(values, world.player.d1);
    lemma_masks(values, world.player.a0);
    lemma_play_set_registers(settings, mask, values, world);
    let one = play(stub::set_registers(settings, mask, values), world).1;
    lemma_play_select(settings, mask, one);
    let two = play(stub::select_registers(settings, mask), one).1;
    assert(0x103u32 & 1 == 1 && 0x103u32 & 2 == 2 && 0x103u32 & 0x100 == 0x100) by (bit_vector);
    assert(1u32 | 2u32 | 0x100u32 == 0x103u32) by (bit_vector);
    let all = be32(first) + be32(second) + be32(third);
    assert(shown_registers(two.player, mask) =~= all);
    assert(all.take(12) =~= all);
    lemma_play_read(settings, 12, two);
}

/// Registers are set only if there is one value for each of them; otherwise
/// nothing is said to the player.
pub proof fn law_registers_and_values_match(settings: Settings, mask: u32, values: Seq<u32>)
    requires
        values.len() != ones(mask),
    ensures
        stub::set_registers(settings, mask, values) == Dialogue::Over(
            Err::<(), Failure>(
                io_failure(
                    IoErrorKind::InvalidInput,
                    "register value count does not match register mask"@,
                ),
            ),
        ),
{
    reveal(stub::set_registers);
}

/// One more bit in a mask is one more register.
pub proof fn law_every_bit_counts_once(mask: u32, bit: nat)
    requires
        bit < 32,
        (mask as nat / pow2(bit)) % 2 == 0,
        mask + pow2(bit) <= u32::MAX,
    ensures
        ones((mask + pow2(bit)) as u32) == ones(mask) + 1,
        ones(0) == 0,
    decreases bit,
{
    lemma_pow2_pos(bit);
    let more = (mask + pow2(bit)) as u32;
    if bit == 0 {
        lemma2_to64();
        assert(mask % 2 == 0);
        assert(more / 2 == mask / 2);
    } else {
        lemma_pow2_unfold(bit);
        let half = pow2((bit - 1) as nat);
        lemma_pow2_pos((bit - 1) as nat);
        assert(pow2(bit) == 2 * half);
        assert((mask as nat / 2) / half == mask as nat / pow2(bit)) by {
            lemma_div_denominator(mask as int, 2, half as int);
        }
        law_every_bit_counts_once(mask / 2, (bit - 1) as nat);
        assert(more / 2 == mask / 2 + half);
        assert(more % 2 == mask % 2);
    }
}

/// Code that was started has returned when the player says so with EM. A
/// cancellation is one, and any other byte is reported as it came.
pub proof fn law_returns_are_awaited(settings: Settings, world: World)
    requires
        world.outbox.len() > 0,
    ensures
        play(stub::wait_for_execution_end(settings), world) == (
            if world.outbox[0] == 0x19 {
                Ok::<(), Failure>(())
            } else if world.outbox[0] == 0x14 {
                Err::<(), Failure>(Failure::Cancelled)
            } else {
                Err::<(), Failure>(Failure::UnexpectedNotification(world.outbox[0]))
            },
            World { outbox: world.outbox.skip(1), ..world },
        ),
{
    lemma_play_notification(settings, world);
    lemma_play_try::<u8, (), Failure>(stub::read_notification(settings), world);
}

/// What a player says before it announces itself, and the byte by which it does,
/// are what is waited for: `SOH` and `DLE` for the download subset, `EM` for a
/// full Stub. What it says after that is left for later.
pub proof fn law_announcements_are_found(
    settings: Settings,
    banner: Seq<u8>,
    marker: u8,
    later: Seq<u8>,
    max_bytes: nat,
    world: World,
)
    requires
        world.inbox.len() == 0,
        world.outbox == banner.push(marker) + later,
        marker == 0x01 || marker == 0x10 || marker == 0x19,
        marker == 0x01 ==> later.len() == 0,
        forall|i: int|
            0 <= i < banner.len() ==> (#[trigger] banner[i]) != 0x01 && banner[i] != 0x10
                && banner[i] != 0x19,
        banner.len() < max_bytes,
    ensures
        play(stub::wait_for_announcement(settings, max_bytes), world) == (
            Ok::<(Seq<u8>, u8), Failure>((banner, marker)),
            World { outbox: later, ..world },
        ),
        play(stub::wait_for_stub(settings, max_bytes), world).0 == Ok::<Seq<u8>, Failure>(banner),
{
    lemma_announcement(settings, seq![], banner, marker, later, max_bytes, world);
    assert(seq![] + banner =~= banner);
    lemma_play_try::<(Seq<u8>, u8), Seq<u8>, Failure>(
        stub::wait_for_announcement(settings, max_bytes),
        world,
    );
}

/// The same after some text.
proof fn lemma_announcement(
    settings: Settings,
    before: Seq<u8>,
    banner: Seq<u8>,
    marker: u8,
    later: Seq<u8>,
    limit: nat,
    world: World,
)
    requires
        world.inbox.len() == 0,
        world.outbox == banner.push(marker) + later,
        announces(marker),
        marker == SOH ==> later.len() == 0,
        forall|i: int| 0 <= i < banner.len() ==> !announces(#[trigger] banner[i]),
        banner.len() < limit,
    ensures
        play(stub::await_announcement(settings, before, limit), world) == (
            Ok::<(Seq<u8>, u8), Failure>((before + banner, marker)),
            World { outbox: later, ..world },
        ),
    decreases banner.len(),
{
    let next = World { outbox: world.outbox.skip(1), ..world };
    lemma_play_notification(settings, world);
    lemma_play_try::<u8, (Seq<u8>, u8), Failure>(stub::read_notification(settings), world);
    if banner.len() == 0 {
        assert(before + banner =~= before);
        assert(world.outbox[0] == marker);
        assert(next.outbox =~= later);
        if marker == SOH {
            lemma_play_answer(settings, ACK, next);
            lemma_play_try::<(), (Seq<u8>, u8), Failure>(stub::send(settings, seq![ACK]), next);
        }
    } else {
        let byte = banner[0];
        let rest = banner.skip(1);
        assert(world.outbox[0] == byte);
        assert(!announces(byte));
        assert(next.outbox =~= rest.push(marker) + later);
        assert forall|i: int| 0 <= i < rest.len() implies !announces(#[trigger] rest[i]) by {
            assert(rest[i] == banner[i + 1]);
        }
        lemma_announcement(
            settings,
            before.push(byte),
            rest,
            marker,
            later,
            (limit - 1) as nat,
            next,
        );
        assert(before.push(byte) + rest =~= before + banner);
        assert(play(stub::await_announcement(settings, before, limit), world) == play(
            stub::await_announcement(settings, before.push(byte), (limit - 1) as nat),
            next,
        ));
    }
}

/// A player that says as much as is waited for without announcing itself is given
/// up.
pub proof fn law_long_banners_are_given_up(settings: Settings, max_bytes: nat, world: World)
    requires
        world.outbox.len() >= max_bytes,
        forall|i: int|
            0 <= i < max_bytes ==> (#[trigger] world.outbox[i]) != 0x01 && world.outbox[i] != 0x10
                && world.outbox[i] != 0x19,
    ensures
        play(stub::wait_for_announcement(settings, max_bytes), world).0 == Err::<
            (Seq<u8>, u8),
            Failure,
        >(io_failure(IoErrorKind::InvalidData, "stub activation banner exceeds limit"@)),
{
    lemma_long_banner(settings, seq![], max_bytes, world);
}

/// The same after some text.
proof fn lemma_long_banner(settings: Settings, before: Seq<u8>, limit: nat, world: World)
    requires
        world.outbox.len() >= limit,
        forall|i: int|
            0 <= i < limit ==> (#[trigger] world.outbox[i]) != 0x01 && world.outbox[i] != 0x10
                && world.outbox[i] != 0x19,
    ensures
        play(stub::await_announcement(settings, before, limit), world).0 == Err::<
            (Seq<u8>, u8),
            Failure,
        >(io_failure(IoErrorKind::InvalidData, "stub activation banner exceeds limit"@)),
    decreases limit,
{
    if limit > 0 {
        let byte = world.outbox[0];
        let next = World { outbox: world.outbox.skip(1), ..world };
        lemma_play_notification(settings, world);
        lemma_play_try::<u8, (Seq<u8>, u8), Failure>(stub::read_notification(settings), world);
        assert forall|i: int| 0 <= i < limit - 1 implies (#[trigger] next.outbox[i]) != 0x01
            && next.outbox[i] != 0x10 && next.outbox[i] != 0x19 by {
            assert(next.outbox[i] == world.outbox[i + 1]);
        }
        lemma_long_banner(settings, before.push(byte), (limit - 1) as nat, next);
        assert(play(stub::await_announcement(settings, before, limit), world) == play(
            stub::await_announcement(settings, before.push(byte), (limit - 1) as nat),
            next,
        ));
    }
}

} // verus!
