//! A transport without a player: it delivers bytes that were prepared, and keeps
//! what was sent. With it a session can be tried out on its own.

use vstd::prelude::*;
use vstd::string::*;

use crate::line::{Call, Event, Reply};
use crate::record::{event_heard, heard, lemma_concat};
use crate::transport::{IoError, Transport};

verus! {

/// What was offered for transmission in a history, piece by piece.
pub open spec fn pieces_in(history: Seq<Event>) -> Seq<Seq<u8>>
    decreases history.len(),
{
    if history.len() == 0 {
        Seq::empty()
    } else {
        let earlier = pieces_in(history.drop_last());
        match history.last().call {
            Call::Write(bytes) => earlier.push(bytes),
            _ => earlier,
        }
    }
}

/// How long was waited in a history, each time.
pub open spec fn waited_in(history: Seq<Event>) -> Seq<nat>
    decreases history.len(),
{
    if history.len() == 0 {
        Seq::empty()
    } else {
        let earlier = waited_in(history.drop_last());
        match history.last().call {
            Call::Pause(nanoseconds) => earlier.push(nanoseconds),
            _ => earlier,
        }
    }
}

/// What was shown to the user in a history.
pub open spec fn shown_in(history: Seq<Event>) -> Seq<Seq<char>>
    decreases history.len(),
{
    if history.len() == 0 {
        Seq::empty()
    } else {
        let earlier = shown_in(history.drop_last());
        match history.last().call {
            Call::Note(line) => earlier.push(line),
            _ => earlier,
        }
    }
}

/// The first bytes of a row, at most so many.
pub open spec fn front(bytes: Seq<u8>, room: nat) -> Seq<u8> {
    if bytes.len() < room {
        bytes
    } else {
        bytes.take(room as int)
    }
}

/// What a prepared transport answers when `left` is still to be delivered:
/// everything is accepted, and what is there is delivered.
pub open spec fn prepared_reply(left: Seq<u8>, call: Call) -> Reply {
    match call {
        Call::Write(bytes) => Reply::Accepted(bytes.len()),
        Call::Read(room) => Reply::Delivered(front(left, room)),
        Call::Flush | Call::Pause(_) | Call::Note(_) => Reply::Finished,
    }
}

/// The history is one of a transport that was prepared to deliver `script`, and
/// on which no call was made before.
pub open spec fn played(script: Seq<u8>, history: Seq<Event>) -> bool
    decreases history.len(),
{
    if history.len() == 0 {
        true
    } else {
        let earlier = history.drop_last();
        let left = script.skip(heard(earlier).len() as int);
        &&& played(script, earlier)
        &&& history.last().reply == prepared_reply(left, history.last().call)
    }
}

/// A prepared transport.
pub struct Replay {
    input: Vec<u8>,
    writes: Vec<Vec<u8>>,
    pauses: Vec<u64>,
    notes: Vec<String>,
    script: Ghost<Seq<u8>>,
    history: Ghost<Seq<Event>>,
}

impl Replay {
    /// What is kept is what the history says.
    #[verifier::type_invariant]
    spec fn well_kept(self) -> bool {
        &&& self.writes.deep_view() == pieces_in(self.history@)
        &&& self.pauses@.map_values(|pause: u64| pause as nat) == waited_in(self.history@)
        &&& self.notes.deep_view() == shown_in(self.history@)
        &&& self.script@ == heard(self.history@) + self.input@
        &&& played(self.script@, self.history@)
    }

    /// What is still to be delivered.
    pub open spec fn left(&self) -> Seq<u8> {
        self.script().skip(heard(self.history()).len() as int)
    }

    /// What was sent, piece by piece.
    pub open spec fn pieces(&self) -> Seq<Seq<u8>> {
        pieces_in(self.history())
    }

    /// How long the session waited, each time.
    pub open spec fn waited(&self) -> Seq<nat> {
        waited_in(self.history())
    }

    /// What was shown to the user.
    pub open spec fn shown(&self) -> Seq<Seq<char>> {
        shown_in(self.history())
    }

    /// A transport that delivers these bytes.
    pub fn new(input: Vec<u8>) -> (replay: Self)
        ensures
            replay.script() == input@,
            replay.history() == Seq::<Event>::empty(),
    {
        let ghost script = input@;
        let writes: Vec<Vec<u8>> = Vec::new();
        let pauses: Vec<u64> = Vec::new();
        let notes: Vec<String> = Vec::new();
        assert(writes.deep_view() =~= Seq::empty());
        assert(pauses@.map_values(|pause: u64| pause as nat) =~= Seq::empty());
        assert(notes.deep_view() =~= Seq::empty());
        assert(heard(Seq::empty()) + script =~= script);
        Replay {
            input,
            writes,
            pauses,
            notes,
            script: Ghost(script),
            history: Ghost(Seq::empty()),
        }
    }

    /// What was sent, piece by piece.
    pub fn writes(&self) -> (writes: &Vec<Vec<u8>>)
        ensures
            writes.deep_view() == self.pieces(),
            played(self.script(), self.history()),
    {
        proof {
            use_type_invariant(self);
        }
        &self.writes
    }

    /// How long the session waited, each time, in nanoseconds.
    pub fn pauses(&self) -> (pauses: &Vec<u64>)
        ensures
            pauses@.map_values(|pause: u64| pause as nat) == self.waited(),
            played(self.script(), self.history()),
    {
        proof {
            use_type_invariant(self);
        }
        &self.pauses
    }

    /// What was shown to the user.
    pub fn notes(&self) -> (notes: &Vec<String>)
        ensures
            notes.deep_view() == self.shown(),
            played(self.script(), self.history()),
    {
        proof {
            use_type_invariant(self);
        }
        &self.notes
    }
}

/// What one more event adds to a history.
proof fn lemma_one_more(history: Seq<Event>, event: Event)
    ensures
        history.push(event).drop_last() == history,
        heard(history.push(event)) == heard(history) + event_heard(event),
{
    assert(history.push(event).drop_last() =~= history);
    assert(history.push(event) =~= history + seq![event]);
    lemma_concat(history, seq![event]);
    assert(heard(seq![event].skip(1)) =~= Seq::empty());
    assert(heard(seq![event]) =~= event_heard(event));
}

impl Transport for Replay {
    closed spec fn history(&self) -> Seq<Event> {
        self.history@
    }

    closed spec fn script(&self) -> Seq<u8> {
        self.script@
    }

    /// Accepts everything.
    fn write(&mut self, bytes: &[u8]) -> (result: Result<usize, IoError>)
        ensures
            result == Ok::<usize, IoError>(bytes@.len() as usize),
    {
        proof {
            use_type_invariant(&*self);
        }
        let mut piece: Vec<u8> = Vec::new();
        piece.extend_from_slice(bytes);
        let mut kept = Replay::new(Vec::new());
        std::mem::swap(&mut kept, self);
        let Replay { input, writes, pauses, notes, script, history } = kept;
        let mut writes: Vec<Vec<u8>> = writes;
        let ghost event = Event {
            call: Call::Write(bytes@),
            reply: Reply::Accepted(bytes@.len()),
        };
        let ghost earlier = writes.deep_view();
        writes.push(piece);
        proof {
            lemma_one_more(history@, event);
            assert(writes.deep_view() =~~= earlier.push(bytes@));
            assert(heard(history@) + event_heard(event) =~= heard(history@));
        }
        *self =
        Replay { input, writes, pauses, notes, script, history: Ghost(history@.push(event)) };
        Ok(bytes.len())
    }

    /// Delivers what was prepared, as long as there is any.
    fn read(&mut self, room: usize) -> (result: Result<Vec<u8>, IoError>)
        ensures
            result matches Ok(bytes) && bytes@ == front(old(self).left(), room as nat),
    {
        proof {
            use_type_invariant(&*self);
        }
        let mut kept = Replay::new(Vec::new());
        std::mem::swap(&mut kept, self);
        let Replay { input, writes, pauses, notes, script, history } = kept;
        let mut input: Vec<u8> = input;
        let ghost left = input@;
        let count: usize = if input.len() < room { input.len() } else { room };
        let mut bytes: Vec<u8> = input.split_off(count);
        std::mem::swap(&mut bytes, &mut input);
        let ghost event = Event {
            call: Call::Read(room as nat),
            reply: Reply::Delivered(bytes@),
        };
        proof {
            lemma_one_more(history@, event);
            assert(script@.skip(heard(history@).len() as int) =~= left);
            assert(bytes@ =~= front(left, room as nat));
            assert(script@ =~= heard(history@) + bytes@ + input@);
        }
        *self =
        Replay { input, writes, pauses, notes, script, history: Ghost(history@.push(event)) };
        Ok(bytes)
    }

    /// Has nothing to push out.
    fn flush(&mut self) -> (result: Result<(), IoError>)
        ensures
            result == Ok::<(), IoError>(()),
    {
        proof {
            use_type_invariant(&*self);
        }
        let mut kept = Replay::new(Vec::new());
        std::mem::swap(&mut kept, self);
        let Replay { input, writes, pauses, notes, script, history } = kept;
        let ghost event = Event { call: Call::Flush, reply: Reply::Finished };
        proof {
            lemma_one_more(history@, event);
            assert(heard(history@) + event_heard(event) =~= heard(history@));
        }
        *self =
        Replay { input, writes, pauses, notes, script, history: Ghost(history@.push(event)) };
        Ok(())
    }

    /// Does not wait, but remembers how long it should have.
    fn pause(&mut self, nanoseconds: u64) {
        proof {
            use_type_invariant(&*self);
        }
        let mut kept = Replay::new(Vec::new());
        std::mem::swap(&mut kept, self);
        let Replay { input, writes, pauses, notes, script, history } = kept;
        let mut pauses: Vec<u64> = pauses;
        let ghost event = Event {
            call: Call::Pause(nanoseconds as nat),
            reply: Reply::Finished,
        };
        let ghost earlier = pauses@.map_values(|pause: u64| pause as nat);
        pauses.push(nanoseconds);
        proof {
            lemma_one_more(history@, event);
            assert(pauses@.map_values(|pause: u64| pause as nat) =~= earlier.push(
                nanoseconds as nat,
            ));
            assert(heard(history@) + event_heard(event) =~= heard(history@));
        }
        *self =
        Replay { input, writes, pauses, notes, script, history: Ghost(history@.push(event)) };
    }

    /// Remembers the line.
    fn note(&mut self, line: &str) {
        proof {
            use_type_invariant(&*self);
        }
        let mut kept = Replay::new(Vec::new());
        std::mem::swap(&mut kept, self);
        let Replay { input, writes, pauses, notes, script, history } = kept;
        let mut notes: Vec<String> = notes;
        let ghost event = Event { call: Call::Note(line@), reply: Reply::Finished };
        let ghost earlier = notes.deep_view();
        notes.push(line.to_owned());
        proof {
            lemma_one_more(history@, event);
            assert(notes.deep_view() =~= earlier.push(line@));
            assert(heard(history@) + event_heard(event) =~= heard(history@));
        }
        *self =
        Replay { input, writes, pauses, notes, script, history: Ghost(history@.push(event)) };
    }
}

} // verus!
