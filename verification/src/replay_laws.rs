//! What a transport without a player keeps and delivers.

use vstd::prelude::*;

use crate::line::{Call, Event, Reply};
use crate::record::{event_heard, heard, lemma_concat};
use crate::replay::{front, pieces_in, played, prepared_reply, shown_in, waited_in};

verus! {

/// Whatever is sent, waited for or shown is kept, in order and each by itself.
pub proof fn law_replays_keep_what_was_done(history: Seq<Event>, event: Event)
    ensures
        event.call matches Call::Write(bytes) ==> pieces_in(history.push(event)) == pieces_in(
            history,
        ).push(bytes),
        !(event.call is Write) ==> pieces_in(history.push(event)) == pieces_in(history),
        event.call matches Call::Pause(time) ==> waited_in(history.push(event)) == waited_in(
            history,
        ).push(time),
        !(event.call is Pause) ==> waited_in(history.push(event)) == waited_in(history),
        event.call matches Call::Note(line) ==> shown_in(history.push(event)) == shown_in(
            history,
        ).push(line),
        !(event.call is Note) ==> shown_in(history.push(event)) == shown_in(history),
{
    assert(history.push(event).drop_last() =~= history);
}

/// A read takes the first bytes that are left: as many as were asked for, or all.
pub proof fn law_reads_take_the_first_bytes(left: Seq<u8>, room: nat)
    ensures
        front(left, room).len() <= room,
        front(left, room).len() == room || front(left, room) == left,
        front(left, room) + left.skip(front(left, room).len() as int) == left,
{
    assert(front(left, room) + left.skip(front(left, room).len() as int) =~= left);
}

/// What was heard from a prepared transport is what it was prepared with, from the
/// beginning and in order. Everything that is sent is accepted, and no call fails.
pub proof fn law_prepared_bytes_are_delivered_in_order(script: Seq<u8>, history: Seq<Event>)
    requires
        played(script, history),
    ensures
        heard(history).len() <= script.len(),
        heard(history) == script.take(heard(history).len() as int),
        history.len() > 0 ==> {
            let event = history.last();
            &&& event.call matches Call::Write(bytes) ==> event.reply == Reply::Accepted(
                bytes.len(),
            )
            &&& event.call matches Call::Read(room) ==> (event.reply matches Reply::Delivered(
                bytes,
            ) && bytes.len() <= room && (bytes.len() == room || heard(history) == script))
            &&& !(event.reply is Failed)
        },
    decreases history.len(),
{
    if history.len() == 0 {
        assert(heard(history) =~= script.take(0));
    } else {
        let earlier = history.drop_last();
        let event = history.last();
        law_prepared_bytes_are_delivered_in_order(script, earlier);
        let left = script.skip(heard(earlier).len() as int);
        assert(event.reply == prepared_reply(left, event.call));
        assert(history =~= earlier + seq![event]);
        lemma_concat(earlier, seq![event]);
        assert(heard(seq![event].skip(1)) =~= Seq::empty());
        assert(heard(seq![event]) =~= event_heard(event));
        assert(heard(history) =~= script.take(heard(history).len() as int));
        if let Call::Read(room) = event.call {
            if left.len() < room {
                assert(heard(history) =~= script);
            }
        }
    }
}

} // verus!
