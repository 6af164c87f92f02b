//! What went over the line, as the record of a dialogue shows it.
//!
//! The functions of this module look at a record from the outside: which bytes
//! were transmitted and which were received. The laws relate these bytes to the
//! outcome of the operation that the record is of.

use vstd::prelude::*;

use crate::dialogue::{
    after, again, chain, follows, lemma_after_chain, lemma_opening, opening, turn, Dialogue,
};
use crate::error::Failure;
use crate::frame::{xor_of, ACK, CAN, DLE, NAK};
use crate::line::{plausible, Call, Event, Reply};
use crate::stub;
use crate::stub::{is_acknowledgement, Settings};

verus! {

/// The bytes that an event transmitted.
pub open spec fn event_sent(event: Event) -> Seq<u8> {
    match (event.call, event.reply) {
        (Call::Write(bytes), Reply::Accepted(count)) => bytes.take(count as int),
        _ => Seq::empty(),
    }
}

/// The bytes that an event received.
pub open spec fn event_heard(event: Event) -> Seq<u8> {
    match event.reply {
        Reply::Delivered(bytes) => bytes,
        _ => Seq::empty(),
    }
}

/// All bytes that were transmitted.
pub open spec fn sent(log: Seq<Event>) -> Seq<u8>
    decreases log.len(),
{
    if log.len() == 0 {
        Seq::empty()
    } else {
        event_sent(log[0]) + sent(log.skip(1))
    }
}

/// All bytes that were received.
pub open spec fn heard(log: Seq<Event>) -> Seq<u8>
    decreases log.len(),
{
    if log.len() == 0 {
        Seq::empty()
    } else {
        event_heard(log[0]) + heard(log.skip(1))
    }
}

/// The first bytes of a row.
pub open spec fn starts(part: Seq<u8>, whole: Seq<u8>) -> bool {
    part.len() <= whole.len() && whole.take(part.len() as int) == part
}

/// A row of bytes, a number of times in a row.
pub open spec fn copies(bytes: Seq<u8>, count: nat) -> Seq<u8>
    decreases count,
{
    if count == 0 {
        Seq::empty()
    } else {
        bytes + copies(bytes, (count - 1) as nat)
    }
}

/// The bytes of a row that are answers to a request. All others are echoes and
/// text, and count for nothing.
pub open spec fn answers(bytes: Seq<u8>) -> Seq<u8>
    decreases bytes.len(),
{
    if bytes.len() == 0 {
        Seq::empty()
    } else if is_acknowledgement(bytes[0]) {
        seq![bytes[0]] + answers(bytes.skip(1))
    } else {
        answers(bytes.skip(1))
    }
}

/// A number of rejections, and then one more byte.
pub open spec fn rejected_then(count: nat, last: u8) -> Seq<u8> {
    copies(seq![NAK], count) + seq![last]
}

/// A call that a session makes: it offers something, one byte at a time while
/// transmission is slowed; it asks for something; it waits for some time; it
/// shows what is transferred only if that is wanted.
pub open spec fn proper_call(settings: Settings, call: Call) -> bool {
    match call {
        Call::Write(bytes) => {
            &&& bytes.len() > 0
            &&& settings.tx_pacing is Some ==> bytes.len() == 1
        },
        Call::Read(room) => room > 0,
        Call::Flush => true,
        Call::Pause(nanoseconds) => nanoseconds > 0,
        Call::Note(_) => settings.raw_uart_trace,
    }
}

/// Every call of a record is one that a session makes.
pub open spec fn orderly(settings: Settings, log: Seq<Event>) -> bool {
    forall|i: int| 0 <= i < log.len() ==> proper_call(settings, (#[trigger] log[i]).call)
}

/// What was transmitted in two stretches of a record.
pub proof fn lemma_concat(first: Seq<Event>, second: Seq<Event>)
    ensures
        sent(first + second) == sent(first) + sent(second),
        heard(first + second) == heard(first) + heard(second),
    decreases first.len(),
{
    if first.len() == 0 {
        assert(first + second =~= second);
        assert(sent(first) + sent(second) =~= sent(second));
        assert(heard(first) + heard(second) =~= heard(second));
    } else {
        assert((first + second).skip(1) =~= first.skip(1) + second);
        lemma_concat(first.skip(1), second);
        assert(sent(first + second) =~= sent(first) + sent(second));
        assert(heard(first + second) =~= heard(first) + heard(second));
    }
}

/// What was transmitted before and after a point of a record.
pub proof fn lemma_cut(log: Seq<Event>, at: int)
    requires
        0 <= at <= log.len(),
    ensures
        sent(log) == sent(log.take(at)) + sent(log.skip(at)),
        heard(log) == heard(log.take(at)) + heard(log.skip(at)),
{
    assert(log =~= log.take(at) + log.skip(at));
    lemma_concat(log.take(at), log.skip(at));
}

/// The record of a single call: possibly interruptions, then the call.
pub proof fn lemma_one_call(log: Seq<Event>, call: Call, reply: Reply)
    requires
        follows(log, turn(call), reply),
    ensures
        plausible(Event { call, reply }),
        !again(Event { call, reply }),
        sent(log) == event_sent(Event { call, reply }),
        heard(log) == event_heard(Event { call, reply }),
        forall|i: int| 0 <= i < log.len() ==> (#[trigger] log[i]).call == call,
    decreases log.len(),
{
    let dialogue = turn(call);
    assert(log.len() > 0);
    if again(log[0]) {
        assert(after(dialogue, log) == after(dialogue, log.skip(1)));
        lemma_one_call(log.skip(1), call, reply);
        assert forall|i: int| 0 <= i < log.len() implies (#[trigger] log[i]).call == call by {
            if i > 0 {
                assert(log[i] == log.skip(1)[i - 1]);
            }
        }
        assert(sent(log) =~= sent(log.skip(1)));
        assert(heard(log) =~= heard(log.skip(1)));
    } else {
        assert(after(dialogue, log) == after(Dialogue::Over(log[0].reply), log.skip(1)));
        assert(log.skip(1).len() == 0);
        assert(log[0] == (Event { call, reply }));
        assert(sent(log.skip(1)) =~= Seq::empty());
        assert(heard(log.skip(1)) =~= Seq::empty());
        assert(sent(log) =~= event_sent(log[0]));
        assert(heard(log) =~= event_heard(log[0]));
    }
}

/// The record of a dialogue that is over from the start is empty.
pub proof fn lemma_over<A>(log: Seq<Event>, result: A, outcome: A)
    requires
        follows(log, Dialogue::Over(result), outcome),
    ensures
        log.len() == 0,
        outcome == result,
        sent(log) == Seq::<u8>::empty(),
        heard(log) == Seq::<u8>::empty(),
{
}

/// A record that falls in two: the first part is one of `first`, the other one
/// of what `whole` goes on with then, and together they hold what was said.
pub proof fn lemma_first<A, B>(
    first: Dialogue<A>,
    whole: Dialogue<B>,
    log: Seq<Event>,
    outcome: B,
) -> (parts: (Seq<Event>, A, Seq<Event>, Dialogue<B>))
    requires
        follows(log, whole, outcome),
        exists|next: spec_fn(A) -> Dialogue<B>| whole == #[trigger] chain(first, next),
    ensures
        log == parts.0 + parts.2,
        follows(parts.0, first, parts.1),
        forall|next: spec_fn(A) -> Dialogue<B>|
            whole == #[trigger] chain(first, next) ==> parts.3 == next(parts.1),
        follows(parts.2, parts.3, outcome),
        forall|settings: Settings| #[trigger]
            orderly(settings, parts.0) && orderly(settings, parts.2) ==> orderly(settings, log),
        sent(log) == sent(parts.0) + sent(parts.2),
        heard(log) == heard(parts.0) + heard(parts.2),
{
    lemma_opening(first, whole, log, outcome);
    let (end, result) = opening(first, log);
    lemma_cut(log, end);
    assert(log =~= log.take(end) + log.skip(end));
    let rest = after(whole, log.take(end))->Some_0;
    assert forall|next: spec_fn(A) -> Dialogue<B>|
        whole == #[trigger] chain(first, next) implies rest == next(result) by {
        lemma_after_chain(first, next, log.take(end));
    }
    (log.take(end), result, log.skip(end), rest)
}

/// Showing bytes to the user is not part of what is said.
proof fn lemma_trace_uart(settings: Settings, direction: Seq<char>, bytes: Seq<u8>, log: Seq<Event>)
    requires
        follows(log, stub::trace_uart(settings, direction, bytes), ()),
    ensures
        orderly(settings, log),
        sent(log) == Seq::<u8>::empty(),
        heard(log) == Seq::<u8>::empty(),
{
    let whole = stub::trace_uart(settings, direction, bytes);
    if settings.raw_uart_trace && bytes.len() > 0 {
        let call = Call::Note(stub::uart_line(direction, bytes));
        let (note, reply, rest, _) = lemma_first(turn(call), whole, log, ());
        lemma_one_call(note, call, reply);
        lemma_over(rest, (), ());
        assert(sent(log) =~= Seq::empty());
        assert(heard(log) =~= Seq::empty());
    }
}

/// Neither is waiting.
proof fn lemma_pace(settings: Settings, log: Seq<Event>)
    requires
        follows(log, stub::pace_tx_byte(settings), ()),
    ensures
        orderly(settings, log),
        sent(log) == Seq::<u8>::empty(),
        heard(log) == Seq::<u8>::empty(),
{
    let whole = stub::pace_tx_byte(settings);
    if stub::extra_time(settings.tx_pacing) > 0 {
        let call = Call::Pause(stub::extra_time(settings.tx_pacing));
        let (pause, reply, rest, _) = lemma_first(turn(call), whole, log, ());
        lemma_one_call(pause, call, reply);
        lemma_over(rest, (), ());
        assert(sent(log) =~= Seq::empty());
        assert(heard(log) =~= Seq::empty());
    }
}

/// What a write transmitted before it went on is in front of what it transmits
/// then.
proof fn lemma_starts_after(bytes: Seq<u8>, count: int, rest: Seq<u8>)
    requires
        0 <= count <= bytes.len(),
        starts(rest, bytes.skip(count)),
    ensures
        starts(bytes.take(count) + rest, bytes),
        bytes.take(count) + rest == bytes <==> rest == bytes.skip(count),
{
    let all = bytes.take(count) + rest;
    let left = bytes.skip(count);
    assert forall|i: int| 0 <= i < all.len() implies bytes[i] == all[i] by {
        if i >= count {
            assert(left.take(rest.len() as int)[i - count] == rest[i - count]);
        }
    }
    assert(bytes.take(all.len() as int) =~= all);
    if rest == left {
        assert(all =~= bytes);
    }
    if all == bytes {
        assert(rest =~= left);
    }
}

/// A write transmits its bytes, all of them if it succeeds, and else only a
/// part from the beginning; nothing is received meanwhile.
pub proof fn lemma_write_all(
    settings: Settings,
    bytes: Seq<u8>,
    log: Seq<Event>,
    outcome: Result<(), Failure>,
)
    requires
        follows(log, stub::write_all(settings, bytes), outcome),
    ensures
        orderly(settings, log),
        heard(log) == Seq::<u8>::empty(),
        starts(sent(log), bytes),
        outcome is Ok <==> sent(log) == bytes,
        outcome matches Err(error) ==> error is Io,
    decreases bytes.len(),
{
    let whole = stub::write_all(settings, bytes);
    assert(bytes.take(0) =~= Seq::empty());
    if bytes.len() == 0 {
        lemma_over(log, Ok::<(), Failure>(()), outcome);
        assert(bytes =~= Seq::empty());
    } else {
        let call = Call::Write(stub::offered(settings, bytes));
        let (write, reply, rest, then) = lemma_first(turn(call), whole, log, outcome);
        lemma_one_call(write, call, reply);
        match reply {
            Reply::Accepted(count) if 0 < count => {
                let shown = bytes.take(count as int);
                let left = bytes.skip(count as int);
                assert(event_sent(Event { call, reply }) =~= shown);
                let trace = stub::trace_uart(settings, "TX"@, shown);
                let pace = stub::pace_tx_byte(settings);
                let (notes, _, rest, then) = lemma_first(trace, then, rest, outcome);
                lemma_trace_uart(settings, "TX"@, shown, notes);
                let (pauses, _, rest, _) = lemma_first(pace, then, rest, outcome);
                lemma_pace(settings, pauses);
                lemma_write_all(settings, left, rest, outcome);
                lemma_starts_after(bytes, count as int, sent(rest));
                assert(sent(log) =~= shown + sent(rest));
                assert(heard(log) =~= Seq::empty());
            },
            _ => {
                assert(rest.len() == 0);
                assert(sent(log) =~= Seq::empty());
                assert(heard(log) =~= Seq::empty());
            },
        }
    }
}

/// A read receives as many bytes as it was asked for, and returns them in the
/// order in which they came; nothing is transmitted meanwhile.
pub proof fn lemma_read_more(
    settings: Settings,
    bytes: Seq<u8>,
    left: nat,
    log: Seq<Event>,
    outcome: Result<Seq<u8>, Failure>,
)
    requires
        follows(log, stub::read_more(settings, bytes, left), outcome),
    ensures
        orderly(settings, log),
        sent(log) == Seq::<u8>::empty(),
        outcome matches Ok(all) ==> heard(log).len() == left && all == bytes + heard(log),
        outcome matches Err(error) ==> heard(log).len() < left && error is Io,
    decreases left,
{
    let whole = stub::read_more(settings, bytes, left);
    if left == 0 {
        lemma_over(log, Ok::<Seq<u8>, Failure>(bytes), outcome);
        assert(bytes + heard(log) =~= bytes);
    } else {
        let call = Call::Read(left);
        let (read, reply, rest, then) = lemma_first(turn(call), whole, log, outcome);
        lemma_one_call(read, call, reply);
        match reply {
            Reply::Delivered(more) if 0 < more.len() => {
                let trace = stub::trace_uart(settings, "RX"@, more);
                let remaining = (left - more.len()) as nat;
                let (notes, _, rest, _) = lemma_first(trace, then, rest, outcome);
                lemma_trace_uart(settings, "RX"@, more, notes);
                lemma_read_more(settings, bytes + more, remaining, rest, outcome);
                assert(heard(log) =~= more + heard(rest));
                assert(sent(log) =~= Seq::empty());
                assert(bytes + more + heard(rest) =~= bytes + heard(log));
            },
            _ => {
                assert(rest.len() == 0);
                assert(heard(log) =~= Seq::empty());
                assert(sent(log) =~= Seq::empty());
            },
        }
    }
}

/// Reading exactly so many bytes.
pub proof fn lemma_read_exact(
    settings: Settings,
    count: nat,
    log: Seq<Event>,
    outcome: Result<Seq<u8>, Failure>,
)
    requires
        follows(log, stub::read_exact(settings, count), outcome),
    ensures
        orderly(settings, log),
        sent(log) == Seq::<u8>::empty(),
        outcome matches Ok(all) ==> heard(log) == all && all.len() == count,
        outcome matches Err(error) ==> heard(log).len() < count && error is Io,
{
    lemma_read_more(settings, seq![], count, log, outcome);
    assert(seq![] + heard(log) =~= heard(log));
}

/// Pushing out what was written says nothing new.
proof fn lemma_flush(log: Seq<Event>, outcome: Result<(), Failure>)
    requires
        follows(log, stub::flush(), outcome),
    ensures
        forall|settings: Settings| #[trigger] orderly(settings, log),
        sent(log) == Seq::<u8>::empty(),
        heard(log) == Seq::<u8>::empty(),
        outcome matches Err(error) ==> error is Io,
{
    let (flush, reply, rest, _) = lemma_first(turn(Call::Flush), stub::flush(), log, outcome);
    lemma_one_call(flush, Call::Flush, reply);
    assert(rest.len() == 0);
    assert(sent(log) =~= Seq::empty());
    assert(heard(log) =~= Seq::empty());
}

/// Sending bytes transmits them.
pub proof fn lemma_send(
    settings: Settings,
    bytes: Seq<u8>,
    log: Seq<Event>,
    outcome: Result<(), Failure>,
)
    requires
        follows(log, stub::send(settings, bytes), outcome),
    ensures
        orderly(settings, log),
        heard(log) == Seq::<u8>::empty(),
        starts(sent(log), bytes),
        outcome is Ok ==> sent(log) == bytes,
        outcome matches Err(error) ==> error is Io,
{
    let whole = stub::send(settings, bytes);
    let write_all = stub::write_all(settings, bytes);
    let (write, written, rest, _) = lemma_first(write_all, whole, log, outcome);
    lemma_write_all(settings, bytes, write, written);
    match written {
        Ok(_) => {
            lemma_flush(rest, outcome);
            assert(bytes.take(bytes.len() as int) =~= bytes);
        },
        Err(_) => {
            assert(rest.len() == 0);
        },
    }
    assert(sent(log) =~= sent(write));
    assert(heard(log) =~= Seq::empty());
}

/// Sending a frame transmits it.
pub proof fn lemma_transmit(
    settings: Settings,
    frame: Seq<u8>,
    log: Seq<Event>,
    outcome: Result<(), Failure>,
)
    requires
        follows(log, stub::transmit(settings, frame), outcome),
        frame.len() > 0,
    ensures
        orderly(settings, log),
        heard(log) == Seq::<u8>::empty(),
        starts(sent(log), frame),
        outcome is Ok ==> sent(log) == frame,
        outcome matches Err(error) ==> error is Io,
{
    let whole = stub::transmit(settings, frame);
    let head = frame.take(1);
    let (first, done, rest, then) = lemma_first(stub::send(settings, head), whole, log, outcome);
    lemma_send(settings, head, first, done);
    match done {
        Ok(_) => {
            let call = Call::Pause(1_000_000);
            let (pause, reply, rest, _) = lemma_first(turn(call), then, rest, outcome);
            lemma_one_call(pause, call, reply);
            lemma_send(settings, frame.skip(1), rest, outcome);
            lemma_starts_after(frame, 1, sent(rest));
            assert(sent(log) =~= head + sent(rest));
        },
        Err(_) => {
            assert(rest.len() == 0);
            assert(sent(log) =~= sent(first));
            assert(frame.take(sent(log).len() as int) =~= head.take(sent(log).len() as int));
        },
    }
    assert(heard(log) =~= Seq::empty());
}

/// A notification is a single byte.
pub proof fn lemma_notification(settings: Settings, log: Seq<Event>, outcome: Result<u8, Failure>)
    requires
        follows(log, stub::read_notification(settings), outcome),
    ensures
        orderly(settings, log),
        sent(log) == Seq::<u8>::empty(),
        outcome matches Ok(byte) ==> heard(log) == seq![byte],
        outcome matches Err(error) ==> heard(log) == Seq::<u8>::empty() && error is Io,
{
    let whole = stub::read_notification(settings);
    let (read, bytes, rest, _) = lemma_first(stub::read_exact(settings, 1), whole, log, outcome);
    lemma_read_exact(settings, 1, read, bytes);
    assert(rest.len() == 0);
    assert(sent(log) =~= Seq::empty());
    match bytes {
        Ok(all) => {
            assert(heard(log) =~= seq![all[0]]);
        },
        Err(_) => {
            assert(heard(log) =~= Seq::empty());
        },
    }
}

/// The answers in two rows of bytes.
pub proof fn lemma_answers_concat(first: Seq<u8>, second: Seq<u8>)
    ensures
        answers(first + second) == answers(first) + answers(second),
    decreases first.len(),
{
    if first.len() == 0 {
        assert(first + second =~= second);
        assert(answers(first) + answers(second) =~= answers(second));
    } else {
        assert((first + second).skip(1) =~= first.skip(1) + second);
        lemma_answers_concat(first.skip(1), second);
        assert(answers(first + second) =~= answers(first) + answers(second));
    }
}

/// The answers in a single byte.
proof fn lemma_one_answer(byte: u8)
    ensures
        answers(seq![byte]) == if is_acknowledgement(byte) {
            seq![byte]
        } else {
            Seq::<u8>::empty()
        },
{
    assert(seq![byte].skip(1) =~= Seq::empty());
    assert(answers(seq![byte].skip(1)) =~= Seq::empty());
    assert(answers(seq![byte]) =~= if is_acknowledgement(byte) {
        seq![byte]
    } else {
        Seq::<u8>::empty()
    });
}

/// Waiting for an answer receives echoes and text, none of which counts, and
/// then one answer.
pub proof fn lemma_acknowledgement(
    settings: Settings,
    limit: nat,
    log: Seq<Event>,
    outcome: Result<u8, Failure>,
)
    requires
        follows(log, stub::read_acknowledgement(settings, limit), outcome),
    ensures
        orderly(settings, log),
        sent(log) == Seq::<u8>::empty(),
        heard(log).len() <= limit,
        outcome matches Ok(byte) ==> is_acknowledgement(byte) && answers(heard(log)) == seq![byte]
            && heard(log).len() > 0 && heard(log).last() == byte,
        outcome matches Err(error) ==> error is Io && answers(heard(log)) == Seq::<u8>::empty(),
    decreases limit,
{
    let whole = stub::read_acknowledgement(settings, limit);
    if limit == 0 {
        assert(log.len() == 0);
        assert(heard(log) =~= Seq::empty());
    } else {
        let read = stub::read_notification(settings);
        let (first, byte, rest, then) = lemma_first(read, whole, log, outcome);
        lemma_notification(settings, first, byte);
        lemma_answers_concat(heard(first), heard(rest));
        match byte {
            Ok(byte) => {
                lemma_one_answer(byte);
                if is_acknowledgement(byte) {
                    assert(rest.len() == 0);
                    assert(heard(log) =~= seq![byte]);
                    assert(answers(heard(log)) =~= seq![byte]);
                } else {
                    lemma_acknowledgement(settings, (limit - 1) as nat, rest, outcome);
                    assert(answers(heard(log)) =~= answers(heard(rest)));
                    if outcome is Ok {
                        assert(heard(log).last() == heard(rest).last());
                    }
                }
            },
            Err(_) => {
                assert(rest.len() == 0);
                assert(heard(log) =~= Seq::empty());
            },
        }
        assert(sent(log) =~= Seq::empty());
    }
}

/// The last bytes of a row.
pub open spec fn ends(whole: Seq<u8>, part: Seq<u8>) -> bool {
    part.len() <= whole.len() && whole.skip(whole.len() - part.len()) == part
}

/// What a row ends with, another row behind which it stands ends with too.
pub proof fn lemma_ends_behind(front: Seq<u8>, whole: Seq<u8>, part: Seq<u8>)
    requires
        ends(whole, part),
    ensures
        ends(front + whole, part),
{
    let all = front + whole;
    assert(all.skip(all.len() - part.len()) =~= whole.skip(whole.len() - part.len()));
}

/// Two rows, one after the other, end with the end of the first and the second.
pub proof fn lemma_ends_with_more(whole: Seq<u8>, part: Seq<u8>, more: Seq<u8>)
    requires
        ends(whole, part),
    ensures
        ends(whole + more, part + more),
{
    let all = whole + more;
    let end = part + more;
    let from = whole.len() - part.len();
    assert forall|i: int| 0 <= i < end.len() implies all.skip(from)[i] == end[i] by {
        if i < part.len() {
            assert(whole.skip(from)[i] == part[i]);
        }
    }
    assert(all.skip(all.len() - end.len()) =~= end);
}

/// A header of a response stands somewhere in a row.
pub open spec fn holds_header(bytes: Seq<u8>, kind: u8) -> bool {
    exists|i: int| 0 <= i < bytes.len() - 1 && #[trigger] bytes[i] == DLE && bytes[i + 1] == kind
}

/// One byte more in front makes a header only with the byte behind it.
proof fn lemma_no_header(byte: u8, rest: Seq<u8>, kind: u8)
    requires
        !holds_header(rest, kind),
        rest.len() > 0 && byte == DLE ==> rest[0] != kind,
    ensures
        !holds_header(seq![byte] + rest, kind),
{
    let bytes = seq![byte] + rest;
    if holds_header(bytes, kind) {
        let i = choose|i: int|
            0 <= i < bytes.len() - 1 && #[trigger] bytes[i] == DLE && bytes[i + 1] == kind;
        assert(bytes[i + 1] == rest[i]);
        if i > 0 {
            assert(bytes[i] == rest[i - 1]);
            assert(rest[i - 1] == DLE && rest[i - 1 + 1] == kind);
        }
    }
}

/// A response header is found behind echoes and text, also behind a DLE that
/// belongs to none. `marked` says that the last byte before was a DLE.
pub proof fn lemma_response_header(
    settings: Settings,
    kind: u8,
    limit: nat,
    marked: bool,
    log: Seq<Event>,
    outcome: Result<(), Failure>,
)
    requires
        follows(
            log,
            if marked {
                stub::read_response_kind(settings, kind, limit)
            } else {
                stub::read_response_header(settings, kind, limit)
            },
            outcome,
        ),
    ensures
        orderly(settings, log),
        sent(log) == Seq::<u8>::empty(),
        outcome is Ok ==> ends(
            if marked {
                seq![DLE] + heard(log)
            } else {
                heard(log)
            },
            seq![DLE, kind],
        ),
        outcome is Err && kind != DLE ==> !holds_header(
            if marked {
                seq![DLE] + heard(log)
            } else {
                heard(log)
            },
            kind,
        ),
        outcome == Err::<(), Failure>(Failure::Cancelled) ==> ends(heard(log), seq![CAN]),
        outcome matches Err(error) ==> error is Io || error is Cancelled || error
            is InvalidReadResponse,
    decreases
            limit,
            if marked {
                0int
            } else {
                1int
            },
{
    let whole = if marked {
        stub::read_response_kind(settings, kind, limit)
    } else {
        stub::read_response_header(settings, kind, limit)
    };
    if limit == 0 {
        assert(log.len() == 0);
        assert(heard(log) =~= Seq::empty());
    } else {
        let read = stub::read_notification(settings);
        let (first, byte, rest, _) = lemma_first(read, whole, log, outcome);
        lemma_notification(settings, first, byte);
        match byte {
            Ok(byte) => {
                let (front, back) = (heard(first), heard(rest));
                if marked && byte == kind {
                    assert(rest.len() == 0);
                    assert(seq![DLE] + heard(log) =~= seq![DLE, kind]);
                    assert((seq![DLE] + heard(log)).skip(0) =~= seq![DLE, kind]);
                } else if !marked && byte == CAN {
                    assert(rest.len() == 0);
                    assert(heard(log) =~= seq![CAN]);
                    assert(heard(log).skip(0) =~= seq![CAN]);
                } else {
                    let left = if marked || byte != DLE {
                        (limit - 1) as nat
                    } else {
                        limit
                    };
                    lemma_response_header(settings, kind, left, byte == DLE, rest, outcome);
                    assert(heard(log) == front + back);
                    assert(front == seq![byte]);
                    lemma_header_behind(front, back, kind);
                    lemma_header_behind(seq![DLE], heard(log), kind);
                    if outcome is Err && kind != DLE {
                        if byte != DLE {
                            lemma_no_header(byte, back, kind);
                        }
                        if marked {
                            lemma_no_header(DLE, heard(log), kind);
                        }
                    }
                }
            },
            Err(_) => {
                assert(rest.len() == 0);
            },
        }
        assert(sent(log) =~= Seq::empty());
    }
}

/// A header or a cancellation at the end stays there.
proof fn lemma_header_behind(front: Seq<u8>, whole: Seq<u8>, kind: u8)
    ensures
        ends(whole, seq![DLE, kind]) ==> ends(front + whole, seq![DLE, kind]),
        ends(whole, seq![CAN]) ==> ends(front + whole, seq![CAN]),
{
    if ends(whole, seq![DLE, kind]) {
        lemma_ends_behind(front, whole, seq![DLE, kind]);
    }
    if ends(whole, seq![CAN]) {
        lemma_ends_behind(front, whole, seq![CAN]);
    }
}

/// A header that has to come right away.
pub proof fn lemma_expect_header(
    settings: Settings,
    kind: u8,
    log: Seq<Event>,
    outcome: Result<(), Failure>,
)
    requires
        follows(log, stub::expect_header(settings, kind), outcome),
    ensures
        orderly(settings, log),
        sent(log) == Seq::<u8>::empty(),
        outcome is Ok ==> heard(log) == seq![DLE, kind],
        outcome == Err::<(), Failure>(Failure::Cancelled) ==> heard(log) == seq![CAN],
        outcome matches Err(error) ==> error is Io || error is Cancelled || error
            is InvalidReadResponse,
{
    let whole = stub::expect_header(settings, kind);
    let read = stub::read_notification(settings);
    let (first, byte, rest, then) = lemma_first(read, whole, log, outcome);
    lemma_notification(settings, first, byte);
    match byte {
        Ok(marker) if marker == DLE => {
            let (next, second, last, _) = lemma_first(read, then, rest, outcome);
            lemma_notification(settings, next, second);
            assert(last.len() == 0);
            if outcome is Ok {
                assert(heard(log) =~= seq![DLE, kind]);
            }
        },
        _ => {
            assert(rest.len() == 0);
            assert(heard(log) =~= heard(first));
        },
    }
    assert(sent(log) =~= Seq::empty());
}

/// The body of a response and its check byte are received, and answered: with
/// ACK if the check byte is right, else with NAK.
pub proof fn lemma_response_body(
    settings: Settings,
    kind: u8,
    count: nat,
    rejection: Failure,
    log: Seq<Event>,
    outcome: Result<Seq<u8>, Failure>,
)
    requires
        follows(log, stub::read_response_body(settings, kind, count, rejection), outcome),
        !(rejection is Io),
    ensures
        orderly(settings, log),
        outcome matches Ok(body) ==> {
            &&& body.len() == count
            &&& heard(log) == body.push(xor_of(seq![DLE, kind] + body))
            &&& sent(log) == seq![ACK]
        },
        outcome matches Err(error) ==> error is Io || {
            &&& error == rejection
            &&& heard(log).len() == count + 1
            &&& heard(log).last() != xor_of(seq![DLE, kind] + heard(log).drop_last())
            &&& sent(log) == seq![NAK]
        },
{
    let whole = stub::read_response_body(settings, kind, count, rejection);
    let reading = stub::read_exact(settings, count);
    let (first, read, rest, then) = lemma_first(reading, whole, log, outcome);
    lemma_read_exact(settings, count, first, read);
    match read {
        Ok(body) => {
            let checking = stub::read_notification(settings);
            let (second, check, rest, then) = lemma_first(checking, then, rest, outcome);
            lemma_notification(settings, second, check);
            match check {
                Ok(check) => {
                    let good = check == xor_of(seq![DLE, kind] + body);
                    let answer = if good {
                        seq![ACK]
                    } else {
                        seq![NAK]
                    };
                    let answering = stub::send(settings, answer);
                    let (third, done, last, _) = lemma_first(answering, then, rest, outcome);
                    lemma_send(settings, answer, third, done);
                    assert(last.len() == 0);
                    assert(sent(log) =~= sent(third));
                    assert(heard(log) =~= body.push(check));
                    assert(heard(log).drop_last() =~= body);
                },
                Err(_) => {
                    assert(rest.len() == 0);
                },
            }
        },
        Err(_) => {
            assert(rest.len() == 0);
        },
    }
}

} // verus!
