//! What is said and heard on a line: the calls on a transport, and its answers.
//!
//! These are values of the model only. A transport keeps the history of all
//! calls on it, and contracts speak of that history.

use vstd::prelude::*;

use crate::transport::{IoError, IoFault};

verus! {

/// One call on a transport.
pub enum Call {
    /// Offer these bytes for transmission.
    Write(Seq<u8>),
    /// Ask for at most this many bytes.
    Read(nat),
    /// Push out everything that was accepted so far.
    Flush,
    /// Wait for this many nanoseconds.
    Pause(nat),
    /// Show a diagnostic line to the user.
    Note(Seq<char>),
}

/// What a transport answered to a call.
pub enum Reply {
    /// The first bytes of those offered, this many, were accepted.
    Accepted(nat),
    /// These bytes arrived. No bytes at all mean the end of the stream.
    Delivered(Seq<u8>),
    /// The call was carried out.
    Finished,
    /// The call failed.
    Failed(IoFault),
}

/// A call together with the answer to it.
pub struct Event {
    pub call: Call,
    pub reply: Reply,
}

/// The reply can be one to the call: it is of the right kind, and no more bytes
/// are accepted than were offered, nor delivered than were asked for.
pub open spec fn plausible(event: Event) -> bool {
    match event.call {
        Call::Write(bytes) => match event.reply {
            Reply::Accepted(count) => count <= bytes.len(),
            Reply::Failed(_) => true,
            _ => false,
        },
        Call::Read(room) => match event.reply {
            Reply::Delivered(bytes) => bytes.len() <= room,
            Reply::Failed(_) => true,
            _ => false,
        },
        Call::Flush => event.reply is Finished || event.reply is Failed,
        Call::Pause(_) | Call::Note(_) => event.reply is Finished,
    }
}

/// The reply that the result of a write stands for.
pub open spec fn write_reply(result: Result<usize, IoError>) -> Reply {
    match result {
        Ok(count) => Reply::Accepted(count as nat),
        Err(error) => Reply::Failed(error@),
    }
}

/// The reply that the result of a read stands for.
pub open spec fn read_reply(result: Result<Vec<u8>, IoError>) -> Reply {
    match result {
        Ok(bytes) => Reply::Delivered(bytes@),
        Err(error) => Reply::Failed(error@),
    }
}

/// The reply that the result of a flush stands for.
pub open spec fn flush_reply(result: Result<(), IoError>) -> Reply {
    match result {
        Ok(_) => Reply::Finished,
        Err(error) => Reply::Failed(error@),
    }
}

} // verus!
