//! What a session needs from the outside world: a byte stream, a clock and a
//! place for diagnostics.

use vstd::prelude::*;

use crate::line::{flush_reply, read_reply, write_reply, Call, Event, Reply};

verus! {

/// The kinds of I/O failure that the library tells apart.
#[derive(Debug, Clone, Copy, PartialEq, Eq, Structural)]
pub enum IoErrorKind {
    /// The call was interrupted before it did anything.
    Interrupted,
    /// A write accepted no bytes.
    WriteZero,
    /// The stream ended in the middle of a frame.
    UnexpectedEof,
    /// The peer sent something that is not part of the protocol.
    InvalidData,
    /// The caller asked for something that makes no sense.
    InvalidInput,
    /// Nothing arrived in time.
    TimedOut,
    /// Nothing is available at the moment.
    WouldBlock,
    /// Anything else.
    Other,
}

/// An I/O failure: its kind, and a text for the user.
#[derive(Debug)]
pub struct IoError {
    pub kind: IoErrorKind,
    pub message: String,
}

/// What an [`IoError`] says, as a value.
pub struct IoFault {
    pub kind: IoErrorKind,
    pub message: Seq<char>,
}

impl View for IoError {
    type V = IoFault;

    open spec fn view(&self) -> IoFault {
        IoFault { kind: self.kind, message: self.message@ }
    }
}

impl IoError {
    /// An error of the given kind with the given text.
    pub fn new(kind: IoErrorKind, message: &str) -> (error: IoError)
        ensures
            error@ == (IoFault { kind, message: message@ }),
    {
        IoError { kind, message: message.to_owned() }
    }
}

/// The result is a failure of kind [`IoErrorKind::Interrupted`].
pub open spec fn interrupted<A>(result: Result<A, IoError>) -> bool {
    result matches Err(error) && error.kind == IoErrorKind::Interrupted
}

/// A byte stream to a CD-i player, with a clock and a diagnostic channel.
///
/// Whoever implements it keeps, in the model, the history of all calls on it:
/// each call adds itself and its answer, and nothing else does.
pub trait Transport: Sized {
    /// All calls made so far, with their answers. Every implementation that is
    /// verified has to say what they are: with the default, which says nothing,
    /// no call can meet its contract.
    open spec fn history(&self) -> Seq<Event> {
        arbitrary()
    }

    /// What a transport without a player was prepared to deliver. No call
    /// changes it. The default is for a transport that has nothing prepared.
    open spec fn script(&self) -> Seq<u8> {
        Seq::empty()
    }

    /// A bound on how often a read or a write can still be interrupted. The
    /// default is for a transport that never is.
    open spec fn patience(&self) -> nat {
        0
    }

    /// Offers bytes for transmission and says how many of them were accepted.
    fn write(&mut self, bytes: &[u8]) -> (result: Result<usize, IoError>)
        ensures
            final(self).history() == old(self).history().push(
                Event { call: Call::Write(bytes@), reply: write_reply(result) },
            ),
            final(self).script() == old(self).script(),
            result matches Ok(count) ==> count <= bytes@.len(),
            interrupted(result) ==> final(self).patience() < old(self).patience(),
    ;

    /// Waits for bytes and takes at most `room` of them. An empty result is
    /// the end of the stream.
    fn read(&mut self, room: usize) -> (result: Result<Vec<u8>, IoError>)
        ensures
            final(self).history() == old(self).history().push(
                Event { call: Call::Read(room as nat), reply: read_reply(result) },
            ),
            final(self).script() == old(self).script(),
            result matches Ok(bytes) ==> bytes@.len() <= room,
            interrupted(result) ==> final(self).patience() < old(self).patience(),
    ;

    /// Pushes out everything that was accepted so far.
    fn flush(&mut self) -> (result: Result<(), IoError>)
        ensures
            final(self).history() == old(self).history().push(
                Event { call: Call::Flush, reply: flush_reply(result) },
            ),
            final(self).script() == old(self).script(),
    ;

    /// Waits for the given number of nanoseconds.
    fn pause(&mut self, nanoseconds: u64)
        ensures
            final(self).history() == old(self).history().push(
                Event { call: Call::Pause(nanoseconds as nat), reply: Reply::Finished },
            ),
            final(self).script() == old(self).script(),
    ;

    /// Shows a diagnostic line to the user.
    fn note(&mut self, line: &str)
        ensures
            final(self).history() == old(self).history().push(
                Event { call: Call::Note(line@), reply: Reply::Finished },
            ),
            final(self).script() == old(self).script(),
    ;
}

} // verus!
