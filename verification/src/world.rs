//! An error-free line to a player that does everything right.
//!
//! Such a world answers every call in one way only, so a dialogue has exactly one
//! course in it. What an operation comes to is then an equation: its outcome, and
//! the world that it leaves behind.

use vstd::prelude::*;

use crate::dialogue::{after, again, attempt, chain, follows, turn, Dialogue};
use crate::error::Failure;
use crate::frame::{
    be16, be32, ones, request_frame, response_frame, value16, value32, xor_of, ACK, ADDRESS,
    BAUDRATE, BUFFER, DLE, END, EXECUTE, NAK, OS9CALL, READ, REGISTERS, REG_CARRY, SOH, WRITE,
};
use crate::laws::{law_frames_cancel_out, law_numbers_round_trip, law_short_numbers_round_trip};
use crate::line::{plausible, Call, Event, Reply};
use crate::player::{
    called, law_registers_are_set_by_writing, lemma_be32_list, loaded, run, shown_registers, step,
    stored, with_registers, Action, Area, Player,
};
use crate::replay::front;
use crate::stub;
use crate::stub::{Settings, NOISE_LIMIT};

verus! {

/// A player and the line to it.
pub struct World {
    pub player: Player,
    /// Where the buffers are that the player hands out, and how many it has.
    pub places: spec_fn(nat) -> u32,
    pub allocated: nat,
    /// The speed that the player chooses when one is asked for.
    pub speeds: spec_fn(u32) -> u32,
    /// What the host has sent of a request that is not complete yet.
    pub inbox: Seq<u8>,
    /// What the player has sent and the host has not read yet.
    pub outbox: Seq<u8>,
}

/// Nothing is under way on the line.
pub open spec fn idle(world: World) -> bool {
    world.inbox.len() == 0 && world.outbox.len() == 0
}

/// The same world with another player.
pub open spec fn with_player(world: World, player: Player) -> World {
    World { player, ..world }
}

/// How long the body of a request is, as far as its beginning tells.
pub open spec fn body_length(request: Seq<u8>) -> nat {
    let kind = request[1];
    if kind == ADDRESS || kind == REGISTERS || kind == EXECUTE || kind == BAUDRATE {
        4
    } else if kind == WRITE {
        2 + value16(request.skip(2)) as nat
    } else if kind == BUFFER || kind == READ {
        2
    } else if kind == OS9CALL {
        6
    } else {
        0
    }
}

/// All of a request has arrived.
pub open spec fn arrived(request: Seq<u8>) -> bool {
    &&& request.len() >= 2
    &&& request[1] == WRITE ==> request.len() >= 4
    &&& request.len() == body_length(request) + 3
}

/// What an OS-9 call does, and whether it fails.
pub open spec fn os9_served(player: Player, call: u16) -> (Player, bool) {
    match (called(player, call, false), called(player, call, true)) {
        (Some(next), _) => (next, false),
        (None, Some(next)) => (next, true),
        (None, None) => (player, true),
    }
}

/// What the player does about a request, and what it answers after the
/// acknowledgement.
pub open spec fn served(world: World, kind: u8, body: Seq<u8>) -> (World, Seq<u8>) {
    let player = world.player;
    let nothing = Seq::<u8>::empty();
    if kind == ADDRESS {
        let area = Area::Memory(value32(body) as int);
        (with_player(world, Player { area, ..player }), nothing)
    } else if kind == REGISTERS {
        let area = Area::Registers(value32(body));
        (with_player(world, Player { area, ..player }), nothing)
    } else if kind == WRITE {
        (with_player(world, data_written(player, body.skip(2))), nothing)
    } else if kind == BUFFER {
        let place = (world.places)(world.allocated);
        let area = Area::Memory(place as int);
        (
            World {
                player: Player { area, ..player },
                allocated: world.allocated + 1,
                ..world
            },
            response_frame(BUFFER, be16(value16(body)) + be32(place)),
        )
    } else if kind == OS9CALL {
        let (next, failed) = os9_served(player, value16(body));
        let mask = if failed {
            REG_CARRY
        } else {
            0
        };
        (with_player(world, next), response_frame(OS9CALL, be32(mask)))
    } else if kind == READ {
        let size = value16(body);
        let (next, data) = data_read(player, size as nat);
        (with_player(world, next), response_frame(READ, be16(size) + data))
    } else if kind == BAUDRATE {
        (world, response_frame(BAUDRATE, be32((world.speeds)(value32(body)))))
    } else if kind == EXECUTE {
        (with_player(world, Player { started: Some(value32(body)), ..player }), nothing)
    } else if kind == END {
        (with_player(world, Player { ended: true, ..player }), nothing)
    } else {
        (world, nothing)
    }
}

/// The player once data was written at the selected place.
pub open spec fn data_written(player: Player, data: Seq<u8>) -> Player {
    match player.area {
        Area::Memory(address) => Player {
            area: Area::Memory(address + data.len()),
            memory: stored(player.memory, address, data),
            ..player
        },
        Area::Registers(mask) => with_registers(player, mask, data),
    }
}

/// The player once data was read at the selected place, and the data.
pub open spec fn data_read(player: Player, size: nat) -> (Player, Seq<u8>) {
    match player.area {
        Area::Memory(address) => (
            Player { area: Area::Memory(address + size), ..player },
            loaded(player.memory, address, size),
        ),
        Area::Registers(mask) => (player, front(shown_registers(player, mask), size)),
    }
}

/// The world once bytes have reached the player. A request that is complete is
/// served, if its check byte is right. What is no request is an answer of the
/// host, and needs none.
#[verifier::opaque]
pub open spec fn received(world: World, bytes: Seq<u8>) -> World {
    let request = world.inbox + bytes;
    if request.len() == 0 || request[0] != SOH {
        World { inbox: Seq::empty(), ..world }
    } else if !arrived(request) {
        World { inbox: request, ..world }
    } else if xor_of(request) != 0 {
        World { inbox: Seq::empty(), outbox: world.outbox.push(NAK), ..world }
    } else {
        let body = request.subrange(2, request.len() - 1);
        let (after, response) = served(world, request[1], body);
        World { inbox: Seq::empty(), outbox: world.outbox.push(ACK) + response, ..after }
    }
}

/// How the world answers a call, and what becomes of it.
pub open spec fn answer(world: World, call: Call) -> (Reply, World) {
    match call {
        Call::Write(bytes) => (Reply::Accepted(bytes.len()), received(world, bytes)),
        Call::Read(room) => {
            let bytes = front(world.outbox, room);
            (
                Reply::Delivered(bytes),
                World { outbox: world.outbox.skip(bytes.len() as int), ..world },
            )
        },
        Call::Flush | Call::Pause(_) | Call::Note(_) => (Reply::Finished, world),
    }
}

/// What a dialogue comes to in the world: its outcome, and what becomes of the
/// world.
pub open spec fn play<A>(dialogue: Dialogue<A>, world: World) -> (A, World)
    decreases dialogue,
{
    match dialogue {
        Dialogue::Over(outcome) => (outcome, world),
        Dialogue::Turn(call, rest) => {
            let (reply, later) = answer(world, call);
            play(rest(reply), later)
        },
    }
}

/// The world after a record, if its answers are those of the world.
pub open spec fn world_after(world: World, log: Seq<Event>) -> Option<World>
    decreases log.len(),
{
    if log.len() == 0 {
        Some(world)
    } else {
        let (reply, later) = answer(world, log[0].call);
        if log[0].reply == reply {
            world_after(later, log.skip(1))
        } else {
            None
        }
    }
}

/// A record whose answers are those of the world has the outcome that the
/// dialogue comes to there.
pub proof fn law_records_are_played<A>(
    dialogue: Dialogue<A>,
    world: World,
    log: Seq<Event>,
    outcome: A,
)
    requires
        follows(log, dialogue, outcome),
        world_after(world, log) is Some,
    ensures
        play(dialogue, world) == (outcome, world_after(world, log)->Some_0),
    decreases log.len(),
{
    if log.len() > 0 {
        let (reply, later) = answer(world, log[0].call);
        match dialogue {
            Dialogue::Over(_) => {},
            Dialogue::Turn(call, rest) => {
                assert(!again(log[0]));
                assert(after(dialogue, log) == after(rest(reply), log.skip(1)));
                law_records_are_played(rest(reply), later, log.skip(1), outcome);
            },
        }
    }
}

/// Every dialogue has a record whose answers are those of the world.
pub proof fn law_dialogues_can_be_played<A>(dialogue: Dialogue<A>, world: World)
    ensures
        exists|log: Seq<Event>| #[trigger]
            follows(log, dialogue, play(dialogue, world).0) && world_after(world, log) == Some(
                play(dialogue, world).1,
            ),
    decreases dialogue,
{
    let (outcome, last) = play(dialogue, world);
    match dialogue {
        Dialogue::Over(_) => {
            let log = Seq::<Event>::empty();
            assert(follows(log, dialogue, outcome));
            assert(world_after(world, log) == Some(last));
        },
        Dialogue::Turn(call, rest) => {
            let (reply, later) = answer(world, call);
            law_dialogues_can_be_played(rest(reply), later);
            let tail = choose|tail: Seq<Event>| #[trigger]
                follows(tail, rest(reply), outcome) && world_after(later, tail) == Some(last);
            let event = Event { call, reply };
            let log = seq![event] + tail;
            assert(log.skip(1) =~= tail);
            assert(!again(event));
            assert(plausible(event));
            assert(after(dialogue, log) == after(rest(reply), log.skip(1)));
            assert(follows(log, dialogue, outcome));
            assert(world_after(world, log) == world_after(later, log.skip(1)));
        },
    }
}

/// A chain is played one part after the other.
pub proof fn lemma_play_chain<A, B>(
    first: Dialogue<A>,
    next: spec_fn(A) -> Dialogue<B>,
    world: World,
)
    ensures
        play(chain(first, next), world) == play(
            next(play(first, world).0),
            play(first, world).1,
        ),
    decreases first,
{
    if let Dialogue::Turn(call, rest) = first {
        let (reply, later) = answer(world, call);
        lemma_play_chain(rest(reply), next, later);
        let whole_rest = chain(first, next)->Turn_1;
        assert(whole_rest(reply) == chain(rest(reply), next));
    }
}

/// The same for whatever comes next.
pub proof fn lemma_play<A, B>(first: Dialogue<A>, world: World)
    ensures
        forall|next: spec_fn(A) -> Dialogue<B>|
            play(#[trigger] chain(first, next), world) == play(
                next(play(first, world).0),
                play(first, world).1,
            ),
{
    assert forall|next: spec_fn(A) -> Dialogue<B>|
        play(#[trigger] chain(first, next), world) == play(
            next(play(first, world).0),
            play(first, world).1,
        ) by {
        lemma_play_chain(first, next, world);
    }
}

/// A single call, and whatever comes next.
pub proof fn lemma_play_call<B>(call: Call, world: World)
    ensures
        forall|next: spec_fn(Reply) -> Dialogue<B>|
            play(#[trigger] chain(turn(call), next), world) == play(
                next(answer(world, call).0),
                answer(world, call).1,
            ),
{
    lemma_play::<Reply, B>(turn(call), world);
    let (reply, later) = answer(world, call);
    let rest = turn(call)->Turn_1;
    assert(rest(reply) == Dialogue::<Reply>::Over(reply));
    assert(play(turn(call), world) == play(rest(reply), later));
}

/// Showing bytes to the user.
proof fn lemma_play_trace(
    settings: Settings,
    direction: Seq<char>,
    bytes: Seq<u8>,
    world: World,
)
    ensures
        play(stub::trace_uart(settings, direction, bytes), world) == ((), world),
{
    if settings.raw_uart_trace && bytes.len() > 0 {
        lemma_play_call::<()>(Call::Note(stub::uart_line(direction, bytes)), world);
    }
}

/// Waiting after a transmission.
proof fn lemma_play_pace(settings: Settings, world: World)
    ensures
        play(stub::pace_tx_byte(settings), world) == ((), world),
{
    if stub::extra_time(settings.tx_pacing) > 0 {
        lemma_play_call::<()>(Call::Pause(stub::extra_time(settings.tx_pacing)), world);
    }
}

/// The bytes do not complete a request before the last of them.
pub open spec fn unbroken(inbox: Seq<u8>, bytes: Seq<u8>) -> bool {
    forall|count: int|
        #![trigger bytes.take(count)]
        0 < count < bytes.len() ==> {
            let request = inbox + bytes.take(count);
            request[0] == SOH && !arrived(request)
        }
}

/// A request that is not complete stays in the inbox.
proof fn lemma_received_part(world: World, bytes: Seq<u8>)
    requires
        (world.inbox + bytes).len() > 0,
        (world.inbox + bytes)[0] == SOH,
        !arrived(world.inbox + bytes),
    ensures
        received(world, bytes) == (World { inbox: world.inbox + bytes, ..world }),
{
    reveal(received);
}

/// What is received in two parts is received at once.
proof fn lemma_received_twice(world: World, first: Seq<u8>, second: Seq<u8>)
    requires
        first.len() > 0,
        (world.inbox + first)[0] == SOH,
        !arrived(world.inbox + first),
    ensures
        received(received(world, first), second) == received(world, first + second),
{
    lemma_received_part(world, first);
    reveal(received);
    assert(world.inbox + first + second =~= world.inbox + (first + second));
}

/// The first write of many.
proof fn lemma_play_first_write(settings: Settings, bytes: Seq<u8>, world: World)
    requires
        bytes.len() > 0,
    ensures
        ({
            let part = stub::offered(settings, bytes);
            play(stub::write_all(settings, bytes), world) == play(
                stub::write_all(settings, bytes.skip(part.len() as int)),
                received(world, part),
            )
        }),
{
    let part = stub::offered(settings, bytes);
    let count = part.len() as int;
    let later = received(world, part);
    lemma_play_call::<Result<(), Failure>>(Call::Write(part), world);
    lemma_play_trace(settings, "TX"@, bytes.take(count), later);
    lemma_play::<(), Result<(), Failure>>(
        stub::trace_uart(settings, "TX"@, bytes.take(count)),
        later,
    );
    lemma_play_pace(settings, later);
    lemma_play::<(), Result<(), Failure>>(stub::pace_tx_byte(settings), later);
}

/// Writing bytes brings them to the player.
proof fn lemma_play_write_all(settings: Settings, bytes: Seq<u8>, world: World)
    requires
        bytes.len() > 0,
        unbroken(world.inbox, bytes),
    ensures
        play(stub::write_all(settings, bytes), world) == (
            Ok::<(), Failure>(()),
            received(world, bytes),
        ),
    decreases bytes.len(),
{
    let part = stub::offered(settings, bytes);
    let count = part.len() as int;
    let rest = bytes.skip(count);
    let later = received(world, part);
    lemma_play_first_write(settings, bytes, world);
    if rest.len() == 0 {
        assert(part =~= bytes);
        assert(stub::write_all(settings, rest) == Dialogue::Over(Ok::<(), Failure>(())));
    } else {
        assert(part =~= bytes.take(1));
        lemma_received_part(world, part);
        lemma_received_twice(world, part, rest);
        assert(part + rest =~= bytes);
        assert forall|n: int|
            #![trigger rest.take(n)]
            0 < n < rest.len() implies {
            let request = later.inbox + rest.take(n);
            request[0] == SOH && !arrived(request)
        } by {
            assert(later.inbox + rest.take(n) =~= world.inbox + bytes.take(n + 1));
        }
        lemma_play_write_all(settings, rest, later);
    }
}

/// Reading what the player has sent.
pub proof fn lemma_play_read_more(
    settings: Settings,
    bytes: Seq<u8>,
    left: nat,
    world: World,
)
    requires
        world.outbox.len() >= left,
    ensures
        play(stub::read_more(settings, bytes, left), world) == (
            Ok::<Seq<u8>, Failure>(bytes + world.outbox.take(left as int)),
            World { outbox: world.outbox.skip(left as int), ..world },
        ),
{
    if left == 0 {
        assert(bytes + world.outbox.take(0) =~= bytes);
        assert(world.outbox.skip(0) =~= world.outbox);
    } else {
        let call = Call::Read(left);
        let more = world.outbox.take(left as int);
        let (reply, later) = answer(world, call);
        assert(front(world.outbox, left) =~= more);
        lemma_play_call::<Result<Seq<u8>, Failure>>(call, world);
        lemma_play_trace(settings, "RX"@, more, later);
        lemma_play::<(), Result<Seq<u8>, Failure>>(
            stub::trace_uart(settings, "RX"@, more),
            later,
        );
        let done = stub::read_more(settings, bytes + more, 0);
        assert((left - more.len()) as nat == 0);
        assert(play(stub::read_more(settings, bytes, left), world) == play(done, later));
        assert(done == Dialogue::Over(Ok::<Seq<u8>, Failure>(bytes + more)));
    }
}

/// An attempt is played one part after the other, as long as it succeeds.
pub proof fn lemma_play_try<A, B, E>(first: Dialogue<Result<A, E>>, world: World)
    ensures
        forall|next: spec_fn(A) -> Dialogue<Result<B, E>>|
            play(#[trigger] attempt(first, next), world) == match play(first, world).0 {
                Ok(result) => play(next(result), play(first, world).1),
                Err(error) => (Err(error), play(first, world).1),
            },
{
    lemma_play::<Result<A, E>, Result<B, E>>(first, world);
}

/// Sending bytes brings them to the player.
proof fn lemma_play_send(settings: Settings, bytes: Seq<u8>, world: World)
    requires
        bytes.len() > 0,
        unbroken(world.inbox, bytes),
    ensures
        play(stub::send(settings, bytes), world) == (
            Ok::<(), Failure>(()),
            received(world, bytes),
        ),
{
    lemma_play_write_all(settings, bytes, world);
    lemma_play_try::<(), (), Failure>(stub::write_all(settings, bytes), world);
    lemma_play_call::<Result<(), Failure>>(Call::Flush, received(world, bytes));
}

/// A request that is complete only at its end.
pub open spec fn proper_request(frame: Seq<u8>) -> bool {
    &&& frame.len() >= 2
    &&& frame[0] == SOH
    &&& forall|count: int|
        #![trigger frame.take(count)]
        0 < count < frame.len() ==> !arrived(frame.take(count))
}

/// A request is complete only at its end if its body is as long as its kind
/// tells.
proof fn lemma_proper_request(kind: u8, body: Seq<u8>)
    requires
        body.len() == body_length(request_frame(kind, body)),
    ensures
        proper_request(request_frame(kind, body)),
        arrived(request_frame(kind, body)),
        request_frame(kind, body)[1] == kind,
        request_frame(kind, body).subrange(2, request_frame(kind, body).len() - 1) == body,
{
    let frame = request_frame(kind, body);
    assert(frame.subrange(2, frame.len() - 1) =~= body);
    assert forall|count: int|
        #![trigger frame.take(count)]
        0 < count < frame.len() implies !arrived(frame.take(count)) by {
        let part = frame.take(count);
        if count >= 2 && (kind == WRITE ==> count >= 4) {
            if kind == WRITE {
                assert(part.skip(2)[0] == frame.skip(2)[0]);
                assert(part.skip(2)[1] == frame.skip(2)[1]);
            }
            assert(body_length(part) == body_length(frame));
        }
    }
}

/// Sending a frame brings it to the player.
proof fn lemma_play_transmit(settings: Settings, frame: Seq<u8>, world: World)
    requires
        world.inbox.len() == 0,
        proper_request(frame),
    ensures
        play(stub::transmit(settings, frame), world) == (
            Ok::<(), Failure>(()),
            received(world, frame),
        ),
{
    let head = frame.take(1);
    let tail = frame.skip(1);
    let middle = received(world, head);
    assert(world.inbox + head =~= head);
    assert(!arrived(head));
    lemma_received_part(world, head);
    lemma_received_twice(world, head, tail);
    assert(head + tail =~= frame);
    lemma_play_send(settings, head, world);
    lemma_play_try::<(), (), Failure>(stub::send(settings, head), world);
    lemma_play_call::<Result<(), Failure>>(Call::Pause(1_000_000), middle);
    assert forall|count: int|
        #![trigger tail.take(count)]
        0 < count < tail.len() implies {
        let request = middle.inbox + tail.take(count);
        request[0] == SOH && !arrived(request)
    } by {
        assert(middle.inbox + tail.take(count) =~= frame.take(count + 1));
    }
    lemma_play_send(settings, tail, middle);
}

/// Reading a single byte.
pub proof fn lemma_play_notification(settings: Settings, world: World)
    requires
        world.outbox.len() > 0,
    ensures
        play(stub::read_notification(settings), world) == (
            Ok::<u8, Failure>(world.outbox[0]),
            World { outbox: world.outbox.skip(1), ..world },
        ),
{
    lemma_play_read_more(settings, seq![], 1, world);
    lemma_play_try::<Seq<u8>, u8, Failure>(stub::read_exact(settings, 1), world);
}

/// A request is acknowledged and served.
pub proof fn lemma_play_request(
    settings: Settings,
    kind: u8,
    body: Seq<u8>,
    operation: Seq<char>,
    world: World,
)
    requires
        idle(world),
        body.len() == body_length(request_frame(kind, body)),
    ensures
        play(stub::send_acknowledged(settings, request_frame(kind, body), operation), world) == (
            Ok::<(), Failure>(()),
            World { outbox: served(world, kind, body).1, ..served(world, kind, body).0 },
        ),
        served(world, kind, body).0.inbox.len() == 0,
{
    let frame = request_frame(kind, body);
    let limit = NOISE_LIMIT as nat;
    lemma_proper_request(kind, body);
    law_frames_cancel_out(kind, body);
    assert(world.inbox + frame =~= frame);
    lemma_play_transmit(settings, frame, world);
    reveal(received);
    let heard = received(world, frame);
    let (next, response) = served(world, kind, body);
    assert(heard.outbox =~= seq![ACK] + response);
    assert(heard.outbox.skip(1) =~= response);
    assert(next.inbox =~= Seq::empty());
    let answered = World { outbox: response, ..next };
    lemma_play_notification(settings, heard);
    assert(World { outbox: heard.outbox.skip(1), ..heard } == answered);
    lemma_play_try::<u8, u8, Failure>(stub::read_notification(settings), heard);
    assert(play(stub::read_acknowledgement(settings, limit), heard) == (
        Ok::<u8, Failure>(ACK),
        answered,
    ));
    lemma_play_try::<u8, (), Failure>(stub::read_acknowledgement(settings, limit), heard);
    lemma_play_try::<(), (), Failure>(stub::transmit(settings, frame), world);
}

/// The host's answer to a response needs none.
pub proof fn lemma_play_answer(settings: Settings, byte: u8, world: World)
    requires
        idle(world),
        byte != SOH,
    ensures
        play(stub::send(settings, seq![byte]), world) == (Ok::<(), Failure>(()), world),
{
    assert(world.inbox + seq![byte] =~= seq![byte]);
    assert(world.inbox =~= Seq::empty());
    reveal(received);
    lemma_play_send(settings, seq![byte], world);
}

/// The header of a response is found.
pub proof fn lemma_play_header(settings: Settings, kind: u8, body: Seq<u8>, world: World)
    requires
        world.outbox == response_frame(kind, body),
    ensures
        play(stub::read_response_header(settings, kind, NOISE_LIMIT as nat), world) == (
            Ok::<(), Failure>(()),
            World { outbox: world.outbox.skip(2), ..world },
        ),
{
    let limit = NOISE_LIMIT as nat;
    let middle = World { outbox: world.outbox.skip(1), ..world };
    assert(world.outbox[0] == DLE && world.outbox[1] == kind);
    assert(middle.outbox.skip(1) =~= world.outbox.skip(2));
    lemma_play_notification(settings, world);
    lemma_play_notification(settings, middle);
    lemma_play_try::<u8, (), Failure>(stub::read_notification(settings), world);
    lemma_play_try::<u8, (), Failure>(stub::read_notification(settings), middle);
    assert(play(stub::read_response_kind(settings, kind, limit), middle) == (
        Ok::<(), Failure>(()),
        World { outbox: world.outbox.skip(2), ..world },
    ));
    assert(play(stub::read_response_header(settings, kind, limit), world) == play(
        stub::read_response_kind(settings, kind, limit),
        middle,
    ));
}

/// The header of a response that comes right away.
pub proof fn lemma_play_expected(settings: Settings, kind: u8, body: Seq<u8>, world: World)
    requires
        world.outbox == response_frame(kind, body),
    ensures
        play(stub::expect_header(settings, kind), world) == (
            Ok::<(), Failure>(()),
            World { outbox: world.outbox.skip(2), ..world },
        ),
{
    let middle = World { outbox: world.outbox.skip(1), ..world };
    assert(world.outbox[0] == DLE && world.outbox[1] == kind);
    assert(middle.outbox.skip(1) =~= world.outbox.skip(2));
    lemma_play_notification(settings, world);
    lemma_play_notification(settings, middle);
    lemma_play_try::<u8, (), Failure>(stub::read_notification(settings), world);
    lemma_play_try::<u8, (), Failure>(stub::read_notification(settings), middle);
}

/// The body of a response is read and acknowledged.
pub proof fn lemma_play_body(
    settings: Settings,
    kind: u8,
    body: Seq<u8>,
    rejection: Failure,
    world: World,
)
    requires
        world.inbox.len() == 0,
        world.outbox == response_frame(kind, body).skip(2),
    ensures
        play(stub::read_response_body(settings, kind, body.len(), rejection), world) == (
            Ok::<Seq<u8>, Failure>(body),
            World { outbox: Seq::empty(), ..world },
        ),
{
    let check = xor_of(seq![DLE, kind] + body);
    let count = body.len();
    assert(world.outbox =~= body.push(check));
    let middle = World { outbox: world.outbox.skip(count as int), ..world };
    let last = World { outbox: Seq::empty(), ..world };
    lemma_play_read_more(settings, seq![], count, world);
    assert(seq![] + world.outbox.take(count as int) =~= body);
    assert(middle.outbox =~= seq![check]);
    assert(middle.outbox.skip(1) =~= Seq::empty());
    lemma_play_notification(settings, middle);
    lemma_play_answer(settings, ACK, last);
    lemma_play_try::<Seq<u8>, Seq<u8>, Failure>(stub::read_exact(settings, count), world);
    lemma_play_try::<u8, Seq<u8>, Failure>(stub::read_notification(settings), middle);
    lemma_play_try::<(), Seq<u8>, Failure>(stub::send(settings, seq![ACK]), last);
}

/// The world after a request that is only acknowledged, as `served` says.
pub proof fn lemma_play_plain(
    settings: Settings,
    kind: u8,
    body: Seq<u8>,
    operation: Seq<char>,
    world: World,
)
    requires
        idle(world),
        body.len() == body_length(request_frame(kind, body)),
        served(world, kind, body).1.len() == 0,
        served(world, kind, body).0.outbox == world.outbox,
    ensures
        play(stub::send_acknowledged(settings, request_frame(kind, body), operation), world) == (
            Ok::<(), Failure>(()),
            served(world, kind, body).0,
        ),
{
    lemma_play_request(settings, kind, body, operation, world);
    assert(served(world, kind, body).1 =~= world.outbox);
}

/// Selecting an address.
pub proof fn lemma_play_set_address(settings: Settings, address: u32, world: World)
    requires
        idle(world),
    ensures
        play(stub::set_address(settings, address), world) == (
            Ok::<(), Failure>(()),
            with_player(
                world,
                Player { area: Area::Memory(address as int), ..world.player },
            ),
        ),
{
    reveal(stub::set_address);
    lemma_play_plain(settings, ADDRESS, be32(address), "address request"@, world);
    law_numbers_round_trip(address);
}

/// Selecting registers.
pub proof fn lemma_play_select(settings: Settings, mask: u32, world: World)
    requires
        idle(world),
    ensures
        play(stub::select_registers(settings, mask), world) == (
            Ok::<(), Failure>(()),
            with_player(world, Player { area: Area::Registers(mask), ..world.player }),
        ),
{
    reveal(stub::select_registers);
    lemma_play_plain(settings, REGISTERS, be32(mask), "register request"@, world);
    law_numbers_round_trip(mask);
}

/// Writing data.
pub proof fn lemma_play_write(settings: Settings, data: Seq<u8>, world: World)
    requires
        idle(world),
        data.len() <= 0xffff,
    ensures
        play(stub::write(settings, data), world) == (
            Ok::<(), Failure>(()),
            with_player(world, data_written(world.player, data)),
        ),
{
    reveal(stub::write);
    let size = data.len() as u16;
    let body = be16(size) + data;
    let frame = request_frame(WRITE, body);
    law_short_numbers_round_trip(size, seq![]);
    assert(frame.skip(2)[0] == be16(size)[0] && frame.skip(2)[1] == be16(size)[1]);
    assert(body.skip(2) =~= data);
    lemma_play_plain(settings, WRITE, body, "write request"@, world);
}

/// Allocating a buffer.
pub proof fn lemma_play_allocate(settings: Settings, size: nat, world: World)
    requires
        idle(world),
        stub::valid_chunk_size(size),
    ensures
        ({
            let place = (world.places)(world.allocated);
            play(stub::allocate_buffer(settings, size), world) == (
                Ok::<(usize, u32), Failure>((size as usize, place)),
                World {
                    player: Player { area: Area::Memory(place as int), ..world.player },
                    allocated: world.allocated + 1,
                    ..world
                },
            )
        }),
{
    reveal(stub::allocate_buffer);
    let short = size as u16;
    let place = (world.places)(world.allocated);
    let body = be16(short);
    let response = be16(short) + be32(place);
    let rejection = Failure::InvalidReadResponse;
    let limit = NOISE_LIMIT as nat;
    law_short_numbers_round_trip(short, seq![]);
    law_numbers_round_trip(place);
    assert(response.skip(2) =~= be32(place));
    lemma_play_request(settings, BUFFER, body, "buffer request"@, world);
    let (next, _) = served(world, BUFFER, body);
    let heard = World { outbox: response_frame(BUFFER, response), ..next };
    let rest = World { outbox: heard.outbox.skip(2), ..heard };
    let last = World { outbox: Seq::empty(), ..heard };
    lemma_play_header(settings, BUFFER, response, heard);
    lemma_play_body(settings, BUFFER, response, rejection, rest);
    assert(last.outbox =~= world.outbox);
    lemma_play_try::<(), (usize, u32), Failure>(
        stub::send_acknowledged(settings, request_frame(BUFFER, body), "buffer request"@),
        world,
    );
    lemma_play_try::<(), (usize, u32), Failure>(
        stub::read_response_header(settings, BUFFER, limit),
        heard,
    );
    lemma_play_try::<Seq<u8>, (usize, u32), Failure>(
        stub::read_response_body(settings, BUFFER, 6, rejection),
        rest,
    );
}

/// Making an OS-9 call.
pub proof fn lemma_play_os9_call(settings: Settings, call: u16, world: World)
    requires
        idle(world),
    ensures
        ({
            let (next, failed) = os9_served(world.player, call);
            play(stub::os9_call(settings, call, 0), world) == (
                Ok::<u32, Failure>(
                    if failed {
                        REG_CARRY
                    } else {
                        0
                    },
                ),
                with_player(world, next),
            )
        }),
{
    reveal(stub::os9_call);
    let body = be16(call) + be32(0);
    let (next, failed) = os9_served(world.player, call);
    let mask = if failed {
        REG_CARRY
    } else {
        0
    };
    let response = be32(mask);
    let rejection = Failure::InvalidReadResponse;
    let limit = NOISE_LIMIT as nat;
    law_short_numbers_round_trip(call, seq![]);
    assert(value16(body) == value16(be16(call)));
    law_numbers_round_trip(mask);
    lemma_play_request(settings, OS9CALL, body, "OS-9 call request"@, world);
    let heard = World {
        outbox: response_frame(OS9CALL, response),
        ..served(world, OS9CALL, body).0
    };
    let rest = World { outbox: heard.outbox.skip(2), ..heard };
    let last = World { outbox: Seq::empty(), ..heard };
    lemma_play_header(settings, OS9CALL, response, heard);
    lemma_play_body(settings, OS9CALL, response, rejection, rest);
    assert(last.outbox =~= world.outbox);
    lemma_play_try::<(), u32, Failure>(
        stub::send_acknowledged(settings, request_frame(OS9CALL, body), "OS-9 call request"@),
        world,
    );
    lemma_play_try::<(), u32, Failure>(
        stub::read_response_header(settings, OS9CALL, limit),
        heard,
    );
    lemma_play_try::<Seq<u8>, u32, Failure>(
        stub::read_response_body(settings, OS9CALL, 4, rejection),
        rest,
    );
}

/// Reading data.
pub proof fn lemma_play_read(settings: Settings, size: nat, world: World)
    requires
        idle(world),
        stub::valid_chunk_size(size),
        data_read(world.player, size).1.len() == size,
    ensures
        ({
            let (next, data) = data_read(world.player, size);
            play(stub::read(settings, size), world) == (
                Ok::<Seq<u8>, Failure>(data),
                with_player(world, next),
            )
        }),
{
    reveal(stub::read);
    let short = size as u16;
    let (next, data) = data_read(world.player, size);
    let body = be16(short);
    law_short_numbers_round_trip(short, seq![]);
    lemma_play_request(settings, READ, body, "read request"@, world);
    let heard = World {
        outbox: response_frame(READ, be16(short) + data),
        ..served(world, READ, body).0
    };
    let last = with_player(world, next);
    lemma_play_read_response(settings, short, data, heard, settings.retries + 1);
    assert(World { outbox: Seq::empty(), ..heard } == last) by {
        assert(world.outbox =~= Seq::empty());
    }
    lemma_play_try::<(), Seq<u8>, Failure>(
        stub::send_acknowledged(settings, request_frame(READ, body), "read request"@),
        world,
    );
}

/// Reading the response that carries data.
proof fn lemma_play_read_response(
    settings: Settings,
    size: u16,
    data: Seq<u8>,
    world: World,
    attempts: nat,
)
    requires
        attempts > 0,
        data.len() == size,
        world.inbox.len() == 0,
        world.outbox == response_frame(READ, be16(size) + data),
    ensures
        play(stub::read_attempts(settings, size as nat, attempts), world) == (
            Ok::<Seq<u8>, Failure>(data),
            World { outbox: Seq::empty(), ..world },
        ),
{
    let check = xor_of(seq![DLE, READ] + (be16(size) + data));
    assert(seq![DLE, READ] + (be16(size) + data) =~= seq![DLE, READ] + be16(size) + data);
    law_short_numbers_round_trip(size, seq![]);
    let one = World { outbox: world.outbox.skip(2), ..world };
    let two = World { outbox: one.outbox.skip(2), ..world };
    let three = World { outbox: two.outbox.skip(size as int), ..world };
    let last = World { outbox: Seq::empty(), ..world };
    assert(one.outbox =~= be16(size) + data.push(check));
    assert(seq![] + one.outbox.take(2) =~= be16(size));
    assert(two.outbox =~= data.push(check));
    assert(seq![] + two.outbox.take(size as int) =~= data);
    assert(three.outbox =~= seq![check]);
    assert(three.outbox.skip(1) =~= Seq::empty());
    lemma_play_expected(settings, READ, be16(size) + data, world);
    lemma_play_read_more(settings, seq![], 2, one);
    lemma_play_read_more(settings, seq![], size as nat, two);
    lemma_play_notification(settings, three);
    lemma_play_answer(settings, ACK, last);
    lemma_play_try::<(), Seq<u8>, Failure>(stub::expect_header(settings, READ), world);
    lemma_play_try::<Seq<u8>, Seq<u8>, Failure>(stub::read_exact(settings, 2), one);
    lemma_play_try::<Seq<u8>, Seq<u8>, Failure>(stub::read_exact(settings, size as nat), two);
    lemma_play_try::<u8, Seq<u8>, Failure>(stub::read_notification(settings), three);
    lemma_play_try::<(), Seq<u8>, Failure>(stub::send(settings, seq![ACK]), last);
}

/// Setting registers.
pub proof fn lemma_play_set_registers(
    settings: Settings,
    mask: u32,
    values: Seq<u32>,
    world: World,
)
    requires
        idle(world),
        values.len() == ones(mask),
        values.len() < 0x1000,
    ensures
        play(stub::set_registers(settings, mask, values), world) == (
            Ok::<(), Failure>(()),
            with_player(
                world,
                step(world.player, Action::SetRegisters { mask, values })->Some_0,
            ),
        ),
{
    reveal(stub::set_registers);
    let data = stub::be32_list(values);
    let selected = with_player(world, Player { area: Area::Registers(mask), ..world.player });
    law_registers_are_set_by_writing(world.player, mask, values);
    lemma_be32_list(values);
    lemma_play_select(settings, mask, world);
    lemma_play_write(settings, data, selected);
    lemma_play_try::<(), (), Failure>(stub::select_registers(settings, mask), world);
    let select = Action::Select(mask);
    let write = Action::Write(data);
    let actions = seq![select, write];
    assert(actions.skip(1) =~= seq![write]);
    assert(actions.skip(1).skip(1) =~= Seq::empty());
    let written = step(selected.player, write)->Some_0;
    assert(run(written, actions.skip(1).skip(1)) == Some(written));
    assert(run(selected.player, actions.skip(1)) == Some(written));
    assert(run(world.player, actions) == Some(written));
}

} // verus!
