//! A host-side session with a CD-i endpoint over any transport.

use vstd::prelude::*;
use vstd::slice::slice_subrange;
use vstd::string::*;

use crate::dialogue::{
    lemma_again, lemma_last, lemma_part, lemma_start, lemma_turn, reaches, turn, Dialogue,
};
use crate::error::{shown, Error, Failure};
use crate::frame::{
    be16, be16_bytes, be32, be32_bytes, count_ones, read_be16, read_be32, request, xor_bytes, ACK,
    ADDRESS, BAUDRATE, BUFFER, CAN, DLE, EM, END, EXECUTE, NAK, OS9CALL, READ, REGISTERS, SOH,
    WRITE,
};
use crate::line::{flush_reply, read_reply, write_reply, Call, Event, Reply};
use crate::progress::{Callback, Progress};
use crate::service;
use crate::stub;
use crate::stub::Settings;
use crate::text::push_hex2;
use crate::transport::{IoError, IoErrorKind, Transport};

verus! {

/// A physically fast link that is to behave like a slower one.
#[derive(Clone, Copy)]
struct TxPacing {
    physical_baud: u32,
    effective_baud: u32,
}

impl TxPacing {
    /// The effective rate is a true slowdown of the physical one.
    #[verifier::type_invariant]
    spec fn slower(self) -> bool {
        0 < self.effective_baud < self.physical_baud
    }
}

/// How a CD-i endpoint announced itself.
#[derive(Debug)]
pub struct Announcement {
    /// What it said before.
    pub banner: Vec<u8>,
    /// The byte that announces it: `EM` for a full Stub, `SOH` or `DLE` for the
    /// download subset of the player's ROM.
    pub marker: u8,
}

impl View for Announcement {
    type V = (Seq<u8>, u8);

    open spec fn view(&self) -> (Seq<u8>, u8) {
        (self.banner@, self.marker)
    }
}

/// A host-side session over any transport, so the protocol can be tested
/// without a physical player.
pub struct Session<T> {
    io: T,
    retries: u8,
    raw_uart_trace: bool,
    tx_pacing: Option<TxPacing>,
}

impl<T: Transport> Session<T> {
    /// The transport of the session.
    pub closed spec fn transport(&self) -> T {
        self.io
    }

    /// Everything that was said and heard so far: the history of the transport.
    pub open spec fn log(&self) -> Seq<Event> {
        self.transport().history()
    }

    /// How the session is set up.
    pub closed spec fn settings(&self) -> Settings {
        Settings {
            retries: self.retries as nat,
            raw_uart_trace: self.raw_uart_trace,
            tx_pacing: match self.tx_pacing {
                Some(pacing) => Some(
                    (pacing.physical_baud as nat, pacing.effective_baud as nat),
                ),
                None => None,
            },
        }
    }
}

/// The ends of the chunks of `chunk_size` bytes that make up the first `done`
/// bytes of a transfer, in ascending order. The last one may be shorter.
pub open spec fn chunk_ends(done: nat, chunk_size: nat) -> Seq<usize> {
    Seq::new(
        if chunk_size == 0 {
            0
        } else {
            ((done + chunk_size - 1) / chunk_size as int) as nat
        },
        |i: int|
            if (i + 1) * chunk_size < done {
                ((i + 1) * chunk_size) as usize
            } else {
                done as usize
            },
    )
}

/// `progress` was called with every end of a chunk up to `done`.
pub open spec fn called_with_ends<F: FnMut(usize)>(
    progress: F,
    done: nat,
    chunk_size: nat,
) -> bool {
    forall|i: int|
        #![trigger chunk_ends(done, chunk_size)[i]]
        0 <= i < chunk_ends(done, chunk_size).len() ==> call_ensures(
            progress,
            (chunk_ends(done, chunk_size)[i],),
            (),
        )
}

/// `progress` can be called with every end of a chunk of a transfer.
pub open spec fn callable_with_ends<F: FnMut(usize)>(
    progress: F,
    total: nat,
    chunk_size: nat,
) -> bool {
    forall|i: int|
        #![trigger chunk_ends(total, chunk_size)[i]]
        0 <= i < chunk_ends(total, chunk_size).len() ==> call_requires(
            progress,
            (chunk_ends(total, chunk_size)[i],),
        )
}

/// Every end of a chunk of a transfer can be reported.
pub open spec fn accepts_ends<P: Progress>(progress: &P, total: nat, chunk_size: nat) -> bool {
    forall|i: int|
        #![trigger chunk_ends(total, chunk_size)[i]]
        0 <= i < chunk_ends(total, chunk_size).len() ==> progress.accepts(
            chunk_ends(total, chunk_size)[i],
        )
}

/// Every end of a chunk up to `done` was taken note of.
pub open spec fn takes_ends<P: Progress>(progress: &P, done: nat, chunk_size: nat) -> bool {
    forall|i: int|
        #![trigger chunk_ends(done, chunk_size)[i]]
        0 <= i < chunk_ends(done, chunk_size).len() ==> progress.takes(
            chunk_ends(done, chunk_size)[i],
        )
}

/// Where nothing was transferred, no chunk has ended.
proof fn lemma_no_ends(chunk_size: nat)
    ensures
        chunk_ends(0, chunk_size) == Seq::<usize>::empty(),
{
    if chunk_size > 0 {
        let c = chunk_size as int;
        vstd::arithmetic::div_mod::lemma_fundamental_div_mod_converse(c - 1, c, 0, c - 1);
    }
    assert(chunk_ends(0, chunk_size) =~= Seq::empty());
}

/// One more chunk has one more end.
proof fn lemma_next_end(earlier: nat, next: nat, total: nat, chunk_size: nat)
    requires
        chunk_size > 0,
        earlier < total <= usize::MAX,
        earlier % chunk_size == 0,
        next == if total - earlier < chunk_size {
            total
        } else {
            earlier + chunk_size
        },
    ensures
        chunk_ends(next, chunk_size) == chunk_ends(earlier, chunk_size).push(next as usize),
        next == total || next % chunk_size == 0,
        ({
            let index = chunk_ends(earlier, chunk_size).len() as int;
            &&& index < chunk_ends(total, chunk_size).len()
            &&& chunk_ends(total, chunk_size)[index] == next
        }),
{
    let c = chunk_size as int;
    let q = earlier as int / c;
    let r = next - earlier;
    vstd::arithmetic::div_mod::lemma_fundamental_div_mod(earlier as int, c);
    vstd::arithmetic::div_mod::lemma_mod_add_multiples_vanish(earlier as int, c);
    assert(q * c == earlier) by (nonlinear_arith)
        requires
            earlier as int == c * q + 0,
    ;
    assert((q + 1) * c == earlier + c) by (nonlinear_arith)
        requires
            q * c == earlier,
    ;
    vstd::arithmetic::div_mod::lemma_fundamental_div_mod_converse(earlier + c - 1, c, q, c - 1);
    vstd::arithmetic::div_mod::lemma_fundamental_div_mod_converse(next + c - 1, c, q + 1, r - 1);
    vstd::arithmetic::div_mod::lemma_div_is_ordered(next + c - 1, total + c - 1, c);
    let (before, after) = (chunk_ends(earlier, chunk_size), chunk_ends(next, chunk_size));
    assert(before.len() == q && after.len() == q + 1);
    assert forall|i: int| 0 <= i < after.len() implies after[i] == before.push(
        next as usize,
    )[i] by {
        if i < q {
            assert((i + 1) * c <= q * c) by (nonlinear_arith)
                requires
                    i + 1 <= q,
                    c > 0,
            ;
        }
    }
    assert(after =~= before.push(next as usize));
}

/// When the end of one more chunk was taken note of, all up to it were.
proof fn lemma_takes_more<P: Progress>(progress: &P, earlier: nat, next: usize, chunk_size: nat)
    requires
        takes_ends(progress, earlier, chunk_size),
        progress.takes(next),
        chunk_ends(next as nat, chunk_size) == chunk_ends(earlier, chunk_size).push(next),
    ensures
        takes_ends(progress, next as nat, chunk_size),
{
    let ends = chunk_ends(earlier, chunk_size);
    assert forall|i: int|
        #![trigger chunk_ends(next as nat, chunk_size)[i]]
        0 <= i < chunk_ends(next as nat, chunk_size).len() implies progress.takes(
        chunk_ends(next as nat, chunk_size)[i],
    ) by {
        if i < ends.len() {
            assert(chunk_ends(next as nat, chunk_size)[i] == ends[i]);
        }
    }
}

impl<T: Transport> Session<T> {
    /// A session with three retries, no trace and no pacing.
    pub fn new(io: T) -> (session: Self)
        ensures
            session.transport() == io,
            session.settings() == (Settings {
                retries: 3,
                raw_uart_trace: false,
                tx_pacing: None,
            }),
    {
        Session { io, retries: 3, raw_uart_trace: false, tx_pacing: None }
    }

    /// A session with the given number of retries, no trace and no pacing.
    pub fn with_retries(io: T, retries: u8) -> (session: Self)
        ensures
            session.transport() == io,
            session.settings() == (Settings {
                retries: retries as nat,
                raw_uart_trace: false,
                tx_pacing: None,
            }),
    {
        Session { io, retries, raw_uart_trace: false, tx_pacing: None }
    }

    /// Enables a hexadecimal trace of every byte transferred through the
    /// session. This is intended for diagnosing serial-link and Stub protocol
    /// problems, and is shown as a diagnostic.
    pub fn set_raw_uart_trace(&mut self, enabled: bool)
        ensures
            final(self).transport() == old(self).transport(),
            final(self).settings() == (Settings {
                raw_uart_trace: enabled,
                ..old(self).settings()
            }),
    {
        self.raw_uart_trace = enabled;
    }

    /// Adds a delay after each UART transmission so a physically faster link
    /// behaves like `effective_baud`. This does not change the serial port's
    /// configured baud rate.
    pub fn set_tx_pacing(&mut self, physical_baud: u32, effective_baud: u32)
        ensures
            final(self).transport() == old(self).transport(),
            final(self).settings() == (Settings {
                tx_pacing: stub::slowing(physical_baud, effective_baud),
                ..old(self).settings()
            }),
    {
        self.tx_pacing =
        if physical_baud > effective_baud && effective_baud > 0 {
            Some(TxPacing { physical_baud, effective_baud })
        } else {
            None
        };
    }

    /// Disables transmit pacing while retaining all other session settings.
    pub fn clear_tx_pacing(&mut self)
        ensures
            final(self).transport() == old(self).transport(),
            final(self).settings() == (Settings { tx_pacing: None, ..old(self).settings() }),
    {
        self.tx_pacing = None;
    }

    /// Gives the transport back.
    pub fn into_inner(self) -> (io: T)
        ensures
            io == self.transport(),
    {
        self.io
    }

    /// Direct access to the transport.
    pub fn transport_mut(&mut self) -> (io: &mut T)
        ensures
            *io == old(self).transport(),
            final(self).transport() == *final(io),
            final(self).settings() == old(self).settings(),
    {
        &mut self.io
    }

    /// Between this state of a session and a later one, exactly the given
    /// dialogue took place on the transport, and it ended with the given outcome.
    pub open spec fn carried_out<A>(
        &self,
        later: &Self,
        dialogue: Dialogue<A>,
        outcome: A,
    ) -> bool {
        &&& later.settings() == self.settings()
        &&& later.transport().script() == self.transport().script()
        &&& reaches(self.log(), dialogue, later.log(), Dialogue::Over(outcome))
    }

    /// Between this state and a later one a download took place, of which
    /// `done` bytes were acknowledged: all of them if it succeeded, else those
    /// before the request that failed. `middle` is the log at that point.
    pub open spec fn downloaded(
        &self,
        later: &Self,
        address: u32,
        data: Seq<u8>,
        chunk_size: nat,
        outcome: Result<(), Failure>,
        done: nat,
        middle: Seq<Event>,
    ) -> bool {
        let settings = self.settings();
        let dialogue = stub::download(settings, address, data, chunk_size);
        let rest = data.skip(done as int);
        match outcome {
            Ok(_) => done == data.len(),
            Err(_) => {
                ||| done == 0 && !stub::valid_chunk_size(chunk_size)
                ||| done == 0 && reaches(
                    self.log(),
                    stub::set_address(settings, address),
                    later.log(),
                    Dialogue::Over(outcome),
                )
                ||| {
                    &&& done < data.len()
                    &&& reaches(
                        self.log(),
                        dialogue,
                        middle,
                        stub::write_chunks(settings, rest, chunk_size),
                    )
                    &&& reaches(
                        middle,
                        stub::write(
                            settings,
                            rest.take(stub::chunk_length(rest.len(), chunk_size) as int),
                        ),
                        later.log(),
                        Dialogue::Over(outcome),
                    )
                }
            },
        }
    }

    /// Between this state and a later one an upload took place, in which
    /// `data` arrived: all of it if it succeeded, else what came before the
    /// request that failed. `middle` is the log at that point.
    pub open spec fn uploaded(
        &self,
        later: &Self,
        address: u32,
        size: nat,
        chunk_size: nat,
        outcome: Result<Seq<u8>, Failure>,
        data: Seq<u8>,
        middle: Seq<Event>,
    ) -> bool {
        let settings = self.settings();
        let dialogue = stub::upload(settings, address, size, chunk_size);
        let left = (size - data.len()) as nat;
        match outcome {
            Ok(all) => data == all,
            Err(error) => {
                ||| data.len() == 0 && !stub::valid_chunk_size(chunk_size)
                ||| data.len() == 0 && reaches(
                    self.log(),
                    stub::set_address(settings, address),
                    later.log(),
                    Dialogue::Over(Err(error)),
                )
                ||| {
                    &&& data.len() < size
                    &&& reaches(
                        self.log(),
                        dialogue,
                        middle,
                        stub::read_chunks(settings, data, left, chunk_size),
                    )
                    &&& reaches(
                        middle,
                        stub::read(settings, stub::chunk_length(left, chunk_size)),
                        later.log(),
                        Dialogue::Over(outcome),
                    )
                }
            },
        }
    }

    /// Shows transferred bytes to the user, if the session is set up for it.
    fn trace_uart(&mut self, direction: &str, bytes: &[u8])
        ensures
            old(self).carried_out(
                final(self),
                stub::trace_uart(old(self).settings(), direction@, bytes@),
                (),
            ),
    {
        let ghost start = self.log();
        let ghost whole = stub::trace_uart(self.settings(), direction@, bytes@);
        proof {
            lemma_start(start, whole);
        }
        if self.raw_uart_trace && bytes.len() > 0 {
            let mut line: String = "UART ".to_owned();
            line.append(direction);
            line.append(":");
            let ghost intro = line@;
            let mut i: usize = 0;
            assert(line@ =~= intro + stub::hex_list(bytes@.take(0)));
            while i < bytes.len()
                invariant
                    i <= bytes@.len(),
                    line@ == intro + stub::hex_list(bytes@.take(i as int)),
                decreases bytes@.len() - i,
            {
                proof {
                    assert(bytes@.take(i + 1).drop_last() =~= bytes@.take(i as int));
                }
                line.push(' ');
                push_hex2(&mut line, bytes[i]);
                i = i + 1;
                assert(line@ =~= intro + stub::hex_list(bytes@.take(i as int)));
            }
            assert(bytes@.take(i as int) =~= bytes@);
            self.io.note(line.as_str());
            proof {
                let call = Call::Note(stub::uart_line(direction@, bytes@));
                lemma_turn(start, Event { call, reply: Reply::Finished });
                lemma_part(start, whole, start, turn(call), self.log(), Reply::Finished);
            }
        }
    }

    /// Waits after a transmission, if transmission is slowed.
    fn pace_tx_byte(&mut self)
        ensures
            old(self).carried_out(final(self), stub::pace_tx_byte(old(self).settings()), ()),
    {
        let ghost start = self.log();
        let ghost whole = stub::pace_tx_byte(self.settings());
        proof {
            lemma_start(start, whole);
        }
        if let Some(pacing) = self.tx_pacing {
            proof {
                use_type_invariant(&pacing);
            }
            // 8N1 UART framing uses ten bits per byte. The physical transfer is
            // already paced at `physical_baud`; wait only for the additional
            // time needed to approximate the requested effective baud rate.
            let target: u64 = 10_000_000_000 / pacing.effective_baud as u64;
            let physical: u64 = 10_000_000_000 / pacing.physical_baud as u64;
            if target > physical {
                self.io.pause(target - physical);
                proof {
                    let call = Call::Pause((target - physical) as nat);
                    lemma_turn(start, Event { call, reply: Reply::Finished });
                    lemma_part(start, whole, start, turn(call), self.log(), Reply::Finished);
                }
            }
        }
    }

    /// Offers bytes to the transport until all of them are accepted.
    fn write_all(&mut self, bytes: &[u8]) -> (result: Result<(), Error>)
        ensures
            old(self).carried_out(
                final(self),
                stub::write_all(old(self).settings(), bytes@),
                shown(result),
            ),
    {
        let ghost start = self.log();
        let ghost settings = self.settings();
        let ghost whole = stub::write_all(settings, bytes@);
        let mut done: usize = 0;
        proof {
            lemma_start(start, whole);
            assert(bytes@.skip(0) =~= bytes@);
        }
        while done < bytes.len()
            invariant
                done <= bytes@.len(),
                start == old(self).log(),
                settings == old(self).settings(),
                self.settings() == settings,
                self.transport().script() == old(self).transport().script(),
                whole == stub::write_all(settings, bytes@),
                reaches(
                    start,
                    whole,
                    self.log(),
                    stub::write_all(settings, bytes@.skip(done as int)),
                ),
            decreases bytes@.len() - done, self.transport().patience(),
        {
            // Serial writes are ordinarily buffered, so delaying after a
            // complete frame does not reliably space its individual UART
            // characters. While transmission is slowed, submit one byte at a
            // time.
            let end: usize = if self.tx_pacing.is_some() { done + 1 } else { bytes.len() };
            let ghost left = bytes@.skip(done as int);
            let ghost before = self.log();
            let part = slice_subrange(bytes, done, end);
            assert(part@ =~= stub::offered(settings, left));
            let written = self.io.write(part);
            let ghost call = Call::Write(part@);
            let ghost reply = write_reply(written);
            match written {
                Ok(count) => {
                    proof {
                        lemma_turn(before, Event { call, reply });
                        lemma_part(start, whole, before, turn(call), self.log(), reply);
                    }
                    if count == 0 {
                        return Err(
                            Error::Io(
                                IoError::new(
                                    IoErrorKind::WriteZero,
                                    "failed to write complete UART frame",
                                ),
                            ),
                        );
                    }
                    let ghost before = self.log();
                    let accepted = slice_subrange(bytes, done, done + count);
                    assert(accepted@ =~= left.take(count as int));
                    self.trace_uart("TX", accepted);
                    proof {
                        lemma_part(
                            start,
                            whole,
                            before,
                            stub::trace_uart(settings, "TX"@, accepted@),
                            self.log(),
                            (),
                        );
                    }
                    let ghost before = self.log();
                    self.pace_tx_byte();
                    proof {
                        lemma_part(
                            start,
                            whole,
                            before,
                            stub::pace_tx_byte(settings),
                            self.log(),
                            (),
                        );
                        assert(left.skip(count as int) =~= bytes@.skip(done + count));
                    }
                    done = done + count;
                },
                Err(error) => {
                    if error.kind == IoErrorKind::Interrupted {
                        proof {
                            lemma_again(
                                start,
                                whole,
                                before,
                                stub::write_all(settings, left),
                                Event { call, reply },
                            );
                        }
                    } else {
                        proof {
                            lemma_turn(before, Event { call, reply });
                            lemma_part(start, whole, before, turn(call), self.log(), reply);
                        }
                        return Err(Error::Io(error));
                    }
                },
            }
        }
        Ok(())
    }

    /// Reads until the given number of bytes has arrived.
    fn read_exact(&mut self, count: usize) -> (result: Result<Vec<u8>, Error>)
        ensures
            old(self).carried_out(
                final(self),
                stub::read_exact(old(self).settings(), count as nat),
                shown(result),
            ),
            result matches Ok(bytes) ==> bytes@.len() == count,
    {
        let ghost start = self.log();
        let ghost settings = self.settings();
        let ghost whole = stub::read_exact(settings, count as nat);
        let mut bytes: Vec<u8> = Vec::new();
        proof {
            lemma_start(start, whole);
            assert(bytes@ =~= seq![]);
        }
        while bytes.len() < count
            invariant
                bytes@.len() <= count,
                start == old(self).log(),
                settings == old(self).settings(),
                self.settings() == settings,
                self.transport().script() == old(self).transport().script(),
                whole == stub::read_exact(settings, count as nat),
                reaches(
                    start,
                    whole,
                    self.log(),
                    stub::read_more(settings, bytes@, (count - bytes@.len()) as nat),
                ),
            decreases count - bytes@.len(), self.transport().patience(),
        {
            let ghost left = (count - bytes@.len()) as nat;
            let ghost before = self.log();
            let arrived = self.io.read(count - bytes.len());
            let ghost call = Call::Read(left);
            let ghost reply = read_reply(arrived);
            match arrived {
                Ok(more) => {
                    proof {
                        lemma_turn(before, Event { call, reply });
                        lemma_part(start, whole, before, turn(call), self.log(), reply);
                    }
                    if more.len() == 0 {
                        return Err(
                            Error::Io(
                                IoError::new(
                                    IoErrorKind::UnexpectedEof,
                                    "UART closed while reading a frame",
                                ),
                            ),
                        );
                    }
                    let ghost before = self.log();
                    self.trace_uart("RX", more.as_slice());
                    proof {
                        lemma_part(
                            start,
                            whole,
                            before,
                            stub::trace_uart(settings, "RX"@, more@),
                            self.log(),
                            (),
                        );
                    }
                    let ghost earlier = bytes@;
                    bytes.extend_from_slice(more.as_slice());
                    assert(bytes@ =~= earlier + more@);
                },
                Err(error) => {
                    if error.kind == IoErrorKind::Interrupted {
                        proof {
                            lemma_again(
                                start,
                                whole,
                                before,
                                stub::read_more(settings, bytes@, left),
                                Event { call, reply },
                            );
                        }
                    } else {
                        proof {
                            lemma_turn(before, Event { call, reply });
                            lemma_part(start, whole, before, turn(call), self.log(), reply);
                        }
                        return Err(Error::Io(error));
                    }
                },
            }
        }
        Ok(bytes)
    }

    /// Pushes out what was written.
    fn flush(&mut self) -> (result: Result<(), Error>)
        ensures
            old(self).carried_out(final(self), stub::flush(), shown(result)),
    {
        let ghost start = self.log();
        let ghost whole = stub::flush();
        proof {
            lemma_start(start, whole);
        }
        let flushed = self.io.flush();
        proof {
            lemma_turn(start, Event { call: Call::Flush, reply: flush_reply(flushed) });
            lemma_part(start, whole, start, turn(Call::Flush), self.log(), flush_reply(flushed));
        }
        match flushed {
            Ok(_) => Ok(()),
            Err(error) => Err(Error::Io(error)),
        }
    }

    /// Writes bytes and pushes them out.
    fn send(&mut self, bytes: &[u8]) -> (result: Result<(), Error>)
        ensures
            old(self).carried_out(
                final(self),
                stub::send(old(self).settings(), bytes@),
                shown(result),
            ),
    {
        let ghost start = self.log();
        let ghost settings = self.settings();
        let ghost whole = stub::send(settings, bytes@);
        proof {
            lemma_start(start, whole);
        }
        let written = self.write_all(bytes);
        proof {
            lemma_part(
                start,
                whole,
                start,
                stub::write_all(settings, bytes@),
                self.log(),
                shown(written),
            );
        }
        match written {
            Ok(_) => {
                let ghost before = self.log();
                let flushed = self.flush();
                proof {
                    lemma_last(
                        start,
                        whole,
                        before,
                        stub::flush(),
                        self.log(),
                        Dialogue::Over(shown(flushed)),
                    );
                }
                flushed
            },
            Err(error) => Err(error),
        }
    }

    /// Sends a frame: its first byte, a millisecond of silence, the rest.
    fn transmit(&mut self, frame: &[u8]) -> (result: Result<(), Error>)
        requires
            frame@.len() > 0,
        ensures
            old(self).carried_out(
                final(self),
                stub::transmit(old(self).settings(), frame@),
                shown(result),
            ),
    {
        let ghost start = self.log();
        let ghost settings = self.settings();
        let ghost whole = stub::transmit(settings, frame@);
        proof {
            lemma_start(start, whole);
        }
        let first = slice_subrange(frame, 0, 1);
        assert(first@ =~= frame@.take(1));
        let sent = self.send(first);
        proof {
            lemma_part(start, whole, start, stub::send(settings, first@), self.log(), shown(sent));
        }
        if let Err(error) = sent {
            return Err(error);
        }
        let ghost before = self.log();
        self.io.pause(1_000_000);
        proof {
            let call = Call::Pause(1_000_000);
            lemma_turn(before, Event { call, reply: Reply::Finished });
            lemma_part(start, whole, before, turn(call), self.log(), Reply::Finished);
        }
        let ghost before = self.log();
        let rest = slice_subrange(frame, 1, frame.len());
        assert(rest@ =~= frame@.skip(1));
        let sent = self.send(rest);
        proof {
            lemma_last(
                start,
                whole,
                before,
                stub::send(settings, rest@),
                self.log(),
                Dialogue::Over(shown(sent)),
            );
        }
        sent
    }

    /// Reads a single byte.
    fn read_notification(&mut self) -> (result: Result<u8, Error>)
        ensures
            old(self).carried_out(
                final(self),
                stub::read_notification(old(self).settings()),
                shown(result),
            ),
    {
        let ghost start = self.log();
        let ghost settings = self.settings();
        let ghost whole = stub::read_notification(settings);
        proof {
            lemma_start(start, whole);
        }
        let bytes = self.read_exact(1);
        proof {
            lemma_part(
                start,
                whole,
                start,
                stub::read_exact(settings, 1),
                self.log(),
                shown(bytes),
            );
        }
        match bytes {
            Ok(bytes) => Ok(bytes[0]),
            Err(error) => Err(error),
        }
    }

    /// Reads an ACK/NAK/CAN response. Some USB serial adapters and null-modem
    /// wiring echo transmitted bytes; startup text may also be queued. Ignore
    /// those bytes until the actual one-byte response.
    fn read_acknowledgement(&mut self) -> (result: Result<u8, Error>)
        ensures
            old(self).carried_out(
                final(self),
                stub::read_acknowledgement(old(self).settings(), stub::NOISE_LIMIT as nat),
                shown(result),
            ),
            result matches Ok(byte) ==> stub::is_acknowledgement(byte),
    {
        let ghost start = self.log();
        let ghost settings = self.settings();
        let ghost whole = stub::read_acknowledgement(settings, stub::NOISE_LIMIT as nat);
        let mut limit: usize = stub::NOISE_LIMIT;
        proof {
            lemma_start(start, whole);
        }
        while limit > 0
            invariant
                start == old(self).log(),
                settings == old(self).settings(),
                self.settings() == settings,
                self.transport().script() == old(self).transport().script(),
                whole == stub::read_acknowledgement(settings, stub::NOISE_LIMIT as nat),
                reaches(
                    start,
                    whole,
                    self.log(),
                    stub::read_acknowledgement(settings, limit as nat),
                ),
            decreases limit,
        {
            let ghost before = self.log();
            let byte = self.read_notification();
            proof {
                lemma_part(
                    start,
                    whole,
                    before,
                    stub::read_notification(settings),
                    self.log(),
                    shown(byte),
                );
            }
            match byte {
                Ok(byte) => {
                    if byte == ACK || byte == NAK || byte == CAN {
                        return Ok(byte);
                    }
                },
                Err(error) => {
                    return Err(error);
                },
            }
            limit = limit - 1;
        }
        Err(
            Error::Io(
                IoError::new(
                    IoErrorKind::InvalidData,
                    "received more than 4096 non-notification bytes while waiting for acknowledgement",
                ),
            ),
        )
    }

    /// Waits for a positive acknowledgement, resending a request after NAK.
    fn send_acknowledged(&mut self, frame: &[u8], operation: &'static str) -> (result: Result<
        (),
        Error,
    >)
        requires
            frame@.len() > 0,
        ensures
            old(self).carried_out(
                final(self),
                stub::send_acknowledged(old(self).settings(), frame@, operation@),
                shown(result),
            ),
    {
        let ghost start = self.log();
        let ghost settings = self.settings();
        let ghost whole = stub::send_acknowledged(settings, frame@, operation@);
        let mut attempts: u16 = self.retries as u16 + 1;
        proof {
            lemma_start(start, whole);
        }
        while attempts > 0
            invariant
                frame@.len() > 0,
                start == old(self).log(),
                settings == old(self).settings(),
                self.settings() == settings,
                self.transport().script() == old(self).transport().script(),
                whole == stub::send_acknowledged(settings, frame@, operation@),
                reaches(
                    start,
                    whole,
                    self.log(),
                    stub::send_attempts(settings, frame@, operation@, attempts as nat),
                ),
            decreases attempts,
        {
            let ghost before = self.log();
            let sent = self.transmit(frame);
            proof {
                lemma_part(
                    start,
                    whole,
                    before,
                    stub::transmit(settings, frame@),
                    self.log(),
                    shown(sent),
                );
            }
            if let Err(error) = sent {
                return Err(error);
            }
            let ghost before = self.log();
            let answer = self.read_acknowledgement();
            proof {
                lemma_part(
                    start,
                    whole,
                    before,
                    stub::read_acknowledgement(settings, stub::NOISE_LIMIT as nat),
                    self.log(),
                    shown(answer),
                );
            }
            match answer {
                Ok(byte) => {
                    if byte == ACK {
                        return Ok(());
                    }
                    if byte == CAN {
                        return Err(Error::Cancelled);
                    }
                },
                Err(error) => {
                    return Err(error);
                },
            }
            attempts = attempts - 1;
        }
        Err(Error::RetryLimitExceeded { operation, attempts: self.retries as u16 + 1 })
    }

    /// Finds a full-Stub response header while tolerating echoed request bytes
    /// or terminal text that was already queued on the serial link.
    fn read_response_header(&mut self, kind: u8) -> (result: Result<(), Error>)
        ensures
            old(self).carried_out(
                final(self),
                stub::read_response_header(old(self).settings(), kind, stub::NOISE_LIMIT as nat),
                shown(result),
            ),
    {
        let ghost start = self.log();
        let ghost settings = self.settings();
        let ghost whole = stub::read_response_header(settings, kind, stub::NOISE_LIMIT as nat);
        let mut limit: usize = stub::NOISE_LIMIT;
        let mut marked: bool = false;
        proof {
            lemma_start(start, whole);
        }
        while limit > 0
            invariant
                start == old(self).log(),
                settings == old(self).settings(),
                self.settings() == settings,
                self.transport().script() == old(self).transport().script(),
                whole == stub::read_response_header(settings, kind, stub::NOISE_LIMIT as nat),
                reaches(
                    start,
                    whole,
                    self.log(),
                    if marked {
                        stub::read_response_kind(settings, kind, limit as nat)
                    } else {
                        stub::read_response_header(settings, kind, limit as nat)
                    },
                ),
            decreases limit, if marked { 0int } else { 1int },
        {
            let ghost before = self.log();
            let byte = self.read_notification();
            proof {
                lemma_part(
                    start,
                    whole,
                    before,
                    stub::read_notification(settings),
                    self.log(),
                    shown(byte),
                );
            }
            let byte: u8 = match byte {
                Ok(byte) => byte,
                Err(error) => {
                    return Err(error);
                },
            };
            if marked {
                if byte == kind {
                    return Ok(());
                }
                // A second DLE can be the one that the header starts with.
                marked = byte == DLE;
                limit = limit - 1;
            } else if byte == CAN {
                return Err(Error::Cancelled);
            } else if byte == DLE {
                marked = true;
            } else {
                limit = limit - 1;
            }
        }
        Err(Error::InvalidReadResponse)
    }

    /// Reads the body and the check byte of a response, and answers them.
    fn read_response_body(&mut self, kind: u8, count: usize, rejection: Error) -> (result: Result<
        Vec<u8>,
        Error,
    >)
        ensures
            old(self).carried_out(
                final(self),
                stub::read_response_body(old(self).settings(), kind, count as nat, rejection@),
                shown(result),
            ),
            result matches Ok(body) ==> body@.len() == count,
    {
        let ghost start = self.log();
        let ghost settings = self.settings();
        let ghost whole = stub::read_response_body(settings, kind, count as nat, rejection@);
        proof {
            lemma_start(start, whole);
        }
        let body = self.read_exact(count);
        proof {
            lemma_part(
                start,
                whole,
                start,
                stub::read_exact(settings, count as nat),
                self.log(),
                shown(body),
            );
        }
        let body: Vec<u8> = match body {
            Ok(body) => body,
            Err(error) => {
                return Err(error);
            },
        };
        let ghost before = self.log();
        let check = self.read_notification();
        proof {
            lemma_part(
                start,
                whole,
                before,
                stub::read_notification(settings),
                self.log(),
                shown(check),
            );
        }
        let check: u8 = match check {
            Ok(check) => check,
            Err(error) => {
                return Err(error);
            },
        };
        let mut covered: Vec<u8> = vec![DLE, kind];
        covered.extend_from_slice(body.as_slice());
        assert(covered@ =~= seq![DLE, kind] + body@);
        let accepted: bool = check == xor_bytes(covered.as_slice());
        let ghost before = self.log();
        let answer: [u8; 1] = if accepted { [ACK] } else { [NAK] };
        assert(answer@ =~= if accepted { seq![ACK] } else { seq![NAK] });
        let sent = self.send(answer.as_slice());
        proof {
            lemma_part(
                start,
                whole,
                before,
                stub::send(settings, answer@),
                self.log(),
                shown(sent),
            );
        }
        match sent {
            Ok(_) => if accepted {
                Ok(body)
            } else {
                Err(rejection)
            },
            Err(error) => Err(error),
        }
    }

    /// Reads the header of a response that has to start right away.
    fn expect_header(&mut self, kind: u8) -> (result: Result<(), Error>)
        ensures
            old(self).carried_out(
                final(self),
                stub::expect_header(old(self).settings(), kind),
                shown(result),
            ),
    {
        let ghost start = self.log();
        let ghost settings = self.settings();
        let ghost whole = stub::expect_header(settings, kind);
        proof {
            lemma_start(start, whole);
        }
        let marker = self.read_notification();
        proof {
            lemma_part(
                start,
                whole,
                start,
                stub::read_notification(settings),
                self.log(),
                shown(marker),
            );
        }
        let marker: u8 = match marker {
            Ok(marker) => marker,
            Err(error) => {
                return Err(error);
            },
        };
        if marker == CAN {
            return Err(Error::Cancelled);
        }
        if marker != DLE {
            return Err(Error::InvalidReadResponse);
        }
        let ghost before = self.log();
        let second = self.read_notification();
        proof {
            lemma_part(
                start,
                whole,
                before,
                stub::read_notification(settings),
                self.log(),
                shown(second),
            );
        }
        match second {
            Ok(second) => if second == kind {
                Ok(())
            } else {
                Err(Error::InvalidReadResponse)
            },
            Err(error) => Err(error),
        }
    }

    /// Sets the target's current address.
    pub fn set_address(&mut self, address: u32) -> (result: Result<(), Error>)
        ensures
            old(self).carried_out(
                final(self),
                stub::set_address(old(self).settings(), address),
                shown(result),
            ),
    {
        proof {
            reveal(stub::set_address);
        }
        let frame: Vec<u8> = request(ADDRESS, be32_bytes(address).as_slice());
        self.send_acknowledged(frame.as_slice(), "address request")
    }

    /// Writes at most 65535 bytes at the current address.
    pub fn write(&mut self, data: &[u8]) -> (result: Result<(), Error>)
        ensures
            old(self).carried_out(
                final(self),
                stub::write(old(self).settings(), data@),
                shown(result),
            ),
    {
        proof {
            reveal(stub::write);
            lemma_start(self.log(), stub::write(self.settings(), data@));
        }
        if data.len() > 0xffff {
            return Err(Error::InvalidChunkSize(data.len()));
        }
        let mut body: Vec<u8> = be16_bytes(data.len() as u16);
        body.extend_from_slice(data);
        assert(body@ =~= be16(data@.len() as u16) + data@);
        let frame: Vec<u8> = request(WRITE, body.as_slice());
        self.send_acknowledged(frame.as_slice(), "write request")
    }

    /// Allocates a temporary full-Stub buffer and makes it the current data
    /// area. Returns its actual size and target address.
    pub fn allocate_buffer(&mut self, size: usize) -> (result: Result<(usize, u32), Error>)
        ensures
            old(self).carried_out(
                final(self),
                stub::allocate_buffer(old(self).settings(), size as nat),
                shown(result),
            ),
    {
        let ghost start = self.log();
        let ghost settings = self.settings();
        let ghost whole = stub::allocate_buffer(settings, size as nat);
        proof {
            reveal(stub::allocate_buffer);
            lemma_start(start, whole);
        }
        if size == 0 || size > 0xffff {
            return Err(Error::InvalidChunkSize(size));
        }
        let frame: Vec<u8> = request(BUFFER, be16_bytes(size as u16).as_slice());
        let sent = self.send_acknowledged(frame.as_slice(), "buffer request");
        proof {
            lemma_part(
                start,
                whole,
                start,
                stub::send_acknowledged(settings, frame@, "buffer request"@),
                self.log(),
                shown(sent),
            );
        }
        if let Err(error) = sent {
            return Err(error);
        }
        let ghost before = self.log();
        let header = self.read_response_header(BUFFER);
        proof {
            lemma_part(
                start,
                whole,
                before,
                stub::read_response_header(settings, BUFFER, stub::NOISE_LIMIT as nat),
                self.log(),
                shown(header),
            );
        }
        if let Err(error) = header {
            return Err(error);
        }
        let ghost before = self.log();
        let body = self.read_response_body(BUFFER, 6, Error::InvalidReadResponse);
        proof {
            lemma_part(
                start,
                whole,
                before,
                stub::read_response_body(settings, BUFFER, 6, Failure::InvalidReadResponse),
                self.log(),
                shown(body),
            );
        }
        match body {
            Ok(body) => {
                let address = slice_subrange(body.as_slice(), 2, 6);
                assert(address@ =~= body@.skip(2));
                Ok((read_be16(body.as_slice()) as usize, read_be32(address)))
            },
            Err(error) => Err(error),
        }
    }

    /// Selects saved 68000 registers and writes their big-endian values in
    /// ascending register-bit order. The full Stub accepts 32-bit values for
    /// the Dn/An registers used by the public constants.
    pub fn set_registers(&mut self, mask: u32, values: &[u32]) -> (result: Result<(), Error>)
        ensures
            old(self).carried_out(
                final(self),
                stub::set_registers(old(self).settings(), mask, values@),
                shown(result),
            ),
    {
        let ghost start = self.log();
        let ghost settings = self.settings();
        let ghost whole = stub::set_registers(settings, mask, values@);
        proof {
            reveal(stub::set_registers);
            lemma_start(start, whole);
        }
        if values.len() as u64 != count_ones(mask) as u64 {
            return Err(
                Error::Io(
                    IoError::new(
                        IoErrorKind::InvalidInput,
                        "register value count does not match register mask",
                    ),
                ),
            );
        }
        let selected = self.select_registers(mask);
        proof {
            lemma_part(
                start,
                whole,
                start,
                stub::select_registers(settings, mask),
                self.log(),
                shown(selected),
            );
        }
        if let Err(error) = selected {
            return Err(error);
        }
        let mut data: Vec<u8> = Vec::new();
        let mut i: usize = 0;
        assert(data@ =~= stub::be32_list(values@.take(0)));
        while i < values.len()
            invariant
                i <= values@.len(),
                data@ == stub::be32_list(values@.take(i as int)),
            decreases values@.len() - i,
        {
            let bytes: Vec<u8> = be32_bytes(values[i]);
            data.extend_from_slice(bytes.as_slice());
            proof {
                assert(values@.take(i + 1).drop_last() =~= values@.take(i as int));
                assert(data@ =~= stub::be32_list(values@.take(i as int)) + bytes@);
            }
            i = i + 1;
        }
        assert(values@.take(i as int) =~= values@);
        let ghost before = self.log();
        let written = self.write(data.as_slice());
        proof {
            lemma_last(
                start,
                whole,
                before,
                stub::write(settings, data@),
                self.log(),
                Dialogue::Over(shown(written)),
            );
        }
        written
    }

    /// Selects saved 68000 registers as the current data area without
    /// modifying them. A subsequent [`read`](Self::read) retrieves their
    /// values in ascending register-bit order.
    pub fn select_registers(&mut self, mask: u32) -> (result: Result<(), Error>)
        ensures
            old(self).carried_out(
                final(self),
                stub::select_registers(old(self).settings(), mask),
                shown(result),
            ),
    {
        proof {
            reveal(stub::select_registers);
        }
        let frame: Vec<u8> = request(REGISTERS, be32_bytes(mask).as_slice());
        self.send_acknowledged(frame.as_slice(), "register request")
    }

    /// Invokes an OS-9 call through a full Stub. `result_mask` asks the Stub
    /// to preserve selected registers for the caller; the returned mask also
    /// reports registers changed by OS-9 and the carry/error state.
    pub fn os9_call(&mut self, call: u16, result_mask: u32) -> (result: Result<u32, Error>)
        ensures
            old(self).carried_out(
                final(self),
                stub::os9_call(old(self).settings(), call, result_mask),
                shown(result),
            ),
    {
        let ghost start = self.log();
        let ghost settings = self.settings();
        let ghost whole = stub::os9_call(settings, call, result_mask);
        proof {
            reveal(stub::os9_call);
            lemma_start(start, whole);
        }
        let mut body: Vec<u8> = be16_bytes(call);
        body.extend_from_slice(be32_bytes(result_mask).as_slice());
        assert(body@ =~= be16(call) + be32(result_mask));
        let frame: Vec<u8> = request(OS9CALL, body.as_slice());
        let sent = self.send_acknowledged(frame.as_slice(), "OS-9 call request");
        proof {
            lemma_part(
                start,
                whole,
                start,
                stub::send_acknowledged(settings, frame@, "OS-9 call request"@),
                self.log(),
                shown(sent),
            );
        }
        if let Err(error) = sent {
            return Err(error);
        }
        let ghost before = self.log();
        let header = self.read_response_header(OS9CALL);
        proof {
            lemma_part(
                start,
                whole,
                before,
                stub::read_response_header(settings, OS9CALL, stub::NOISE_LIMIT as nat),
                self.log(),
                shown(header),
            );
        }
        if let Err(error) = header {
            return Err(error);
        }
        let ghost before = self.log();
        let mask = self.read_response_body(OS9CALL, 4, Error::InvalidReadResponse);
        proof {
            lemma_part(
                start,
                whole,
                before,
                stub::read_response_body(settings, OS9CALL, 4, Failure::InvalidReadResponse),
                self.log(),
                shown(mask),
            );
        }
        match mask {
            Ok(mask) => Ok(read_be32(mask.as_slice())),
            Err(error) => Err(error),
        }
    }

    /// Asks a full Stub for the highest supported baud rate not exceeding
    /// `desired`. The caller must switch its local serial port to the returned
    /// non-zero rate immediately after this succeeds.
    pub fn negotiate_baud_rate(&mut self, desired: u32) -> (result: Result<u32, Error>)
        ensures
            old(self).carried_out(
                final(self),
                stub::negotiate_baud_rate(old(self).settings(), desired),
                shown(result),
            ),
    {
        let ghost start = self.log();
        let ghost settings = self.settings();
        let ghost whole = stub::negotiate_baud_rate(settings, desired);
        proof {
            lemma_start(start, whole);
        }
        let frame: Vec<u8> = request(BAUDRATE, be32_bytes(desired).as_slice());
        let sent = self.send_acknowledged(frame.as_slice(), "baud-rate request");
        proof {
            lemma_part(
                start,
                whole,
                start,
                stub::send_acknowledged(settings, frame@, "baud-rate request"@),
                self.log(),
                shown(sent),
            );
        }
        if let Err(error) = sent {
            return Err(error);
        }
        let ghost before = self.log();
        let header = self.expect_header(BAUDRATE);
        proof {
            lemma_part(
                start,
                whole,
                before,
                stub::expect_header(settings, BAUDRATE),
                self.log(),
                shown(header),
            );
        }
        if let Err(error) = header {
            return Err(error);
        }
        let ghost before = self.log();
        let rejection: Error = Error::RetryLimitExceeded {
            operation: "baud-rate response",
            attempts: 1,
        };
        let ghost rejected = rejection@;
        let rate = self.read_response_body(BAUDRATE, 4, rejection);
        proof {
            lemma_part(
                start,
                whole,
                before,
                stub::read_response_body(settings, BAUDRATE, 4, rejected),
                self.log(),
                shown(rate),
            );
        }
        match rate {
            Ok(rate) => Ok(read_be32(rate.as_slice())),
            Err(error) => Err(error),
        }
    }

    /// Starts code at `address`. The target first returns ACK; a returning
    /// stub application will later send EM.
    pub fn execute(&mut self, address: u32) -> (result: Result<(), Error>)
        ensures
            old(self).carried_out(
                final(self),
                stub::execute(old(self).settings(), address),
                shown(result),
            ),
    {
        let frame: Vec<u8> = request(EXECUTE, be32_bytes(address).as_slice());
        self.send_acknowledged(frame.as_slice(), "execute request")
    }

    /// Waits until code that was started returns.
    pub fn wait_for_execution_end(&mut self) -> (result: Result<(), Error>)
        ensures
            old(self).carried_out(
                final(self),
                stub::wait_for_execution_end(old(self).settings()),
                shown(result),
            ),
    {
        let ghost start = self.log();
        let ghost settings = self.settings();
        let ghost whole = stub::wait_for_execution_end(settings);
        proof {
            lemma_start(start, whole);
        }
        let byte = self.read_notification();
        proof {
            lemma_part(
                start,
                whole,
                start,
                stub::read_notification(settings),
                self.log(),
                shown(byte),
            );
        }
        match byte {
            Ok(byte) => if byte == EM {
                Ok(())
            } else if byte == CAN {
                Err(Error::Cancelled)
            } else {
                Err(Error::UnexpectedNotification(byte))
            },
            Err(error) => Err(error),
        }
    }

    /// Ends the stub, so that the player goes on with its normal processing.
    pub fn end(&mut self) -> (result: Result<(), Error>)
        ensures
            old(self).carried_out(final(self), stub::end(old(self).settings()), shown(result)),
    {
        let nothing: Vec<u8> = Vec::new();
        let frame: Vec<u8> = request(END, nothing.as_slice());
        assert(nothing@ =~= seq![]);
        self.send_acknowledged(frame.as_slice(), "end request")
    }

    /// Reads startup text until a CD-i endpoint announces itself, and says by
    /// which byte it did.
    ///
    /// A full Stub prints a banner and then sends `EM`. The player ROM's
    /// download subset instead starts its bootstrap with `SOH`, which has to be
    /// answered with `ACK` before changing to the transfer baud rate.
    pub fn wait_for_announcement(&mut self, max_bytes: usize) -> (result: Result<
        Announcement,
        Error,
    >)
        ensures
            old(self).carried_out(
                final(self),
                stub::wait_for_announcement(old(self).settings(), max_bytes as nat),
                shown(result),
            ),
    {
        let ghost start = self.log();
        let ghost settings = self.settings();
        let ghost whole = stub::wait_for_announcement(settings, max_bytes as nat);
        let mut banner: Vec<u8> = Vec::new();
        proof {
            lemma_start(start, whole);
            assert(banner@ =~= seq![]);
        }
        while banner.len() < max_bytes
            invariant
                banner@.len() <= max_bytes,
                start == old(self).log(),
                settings == old(self).settings(),
                self.settings() == settings,
                self.transport().script() == old(self).transport().script(),
                whole == stub::wait_for_announcement(settings, max_bytes as nat),
                reaches(
                    start,
                    whole,
                    self.log(),
                    stub::await_announcement(settings, banner@, (max_bytes - banner@.len()) as nat),
                ),
            decreases max_bytes - banner@.len(),
        {
            let ghost before = self.log();
            let byte = self.read_notification();
            proof {
                lemma_part(
                    start,
                    whole,
                    before,
                    stub::read_notification(settings),
                    self.log(),
                    shown(byte),
                );
            }
            let byte: u8 = match byte {
                Ok(byte) => byte,
                Err(error) => {
                    return Err(error);
                },
            };
            if byte == SOH {
                let ghost before = self.log();
                let answer: [u8; 1] = [ACK];
                assert(answer@ =~= seq![ACK]);
                let sent = self.send(answer.as_slice());
                proof {
                    lemma_part(
                        start,
                        whole,
                        before,
                        stub::send(settings, answer@),
                        self.log(),
                        shown(sent),
                    );
                }
                return match sent {
                    Ok(_) => Ok(Announcement { banner, marker: byte }),
                    Err(error) => Err(error),
                };
            }
            if byte == EM || byte == DLE {
                return Ok(Announcement { banner, marker: byte });
            }
            banner.push(byte);
        }
        Err(
            Error::Io(
                IoError::new(IoErrorKind::InvalidData, "stub activation banner exceeds limit"),
            ),
        )
    }

    /// Reads startup text until a CD-i endpoint announces itself.
    pub fn wait_for_stub(&mut self, max_bytes: usize) -> (result: Result<Vec<u8>, Error>)
        ensures
            old(self).carried_out(
                final(self),
                stub::wait_for_stub(old(self).settings(), max_bytes as nat),
                shown(result),
            ),
    {
        let ghost start = self.log();
        let ghost settings = self.settings();
        let ghost whole = stub::wait_for_stub(settings, max_bytes as nat);
        proof {
            lemma_start(start, whole);
        }
        let announcement = self.wait_for_announcement(max_bytes);
        proof {
            lemma_part(
                start,
                whole,
                start,
                stub::wait_for_announcement(settings, max_bytes as nat),
                self.log(),
                shown(announcement),
            );
        }
        match announcement {
            Ok(announcement) => Ok(announcement.banner),
            Err(error) => Err(error),
        }
    }

    /// Reads up to 65535 bytes from the current address. This request is only
    /// supported by a full `cdi_stub`, not the player's ROM download subset.
    pub fn read(&mut self, size: usize) -> (result: Result<Vec<u8>, Error>)
        ensures
            old(self).carried_out(
                final(self),
                stub::read(old(self).settings(), size as nat),
                shown(result),
            ),
            result matches Ok(data) ==> data@.len() == size,
    {
        let ghost start = self.log();
        let ghost settings = self.settings();
        let ghost whole = stub::read(settings, size as nat);
        proof {
            reveal(stub::read);
            lemma_start(start, whole);
        }
        if size == 0 || size > 0xffff {
            return Err(Error::InvalidChunkSize(size));
        }
        let frame: Vec<u8> = request(READ, be16_bytes(size as u16).as_slice());
        let sent = self.send_acknowledged(frame.as_slice(), "read request");
        proof {
            lemma_part(
                start,
                whole,
                start,
                stub::send_acknowledged(settings, frame@, "read request"@),
                self.log(),
                shown(sent),
            );
        }
        if let Err(error) = sent {
            return Err(error);
        }
        let mut attempts: u16 = self.retries as u16 + 1;
        while attempts > 0
            invariant
                start == old(self).log(),
                settings == old(self).settings(),
                self.settings() == settings,
                self.transport().script() == old(self).transport().script(),
                whole == stub::read(settings, size as nat),
                reaches(
                    start,
                    whole,
                    self.log(),
                    stub::read_attempts(settings, size as nat, attempts as nat),
                ),
            decreases attempts,
        {
            let ghost before = self.log();
            let header = self.expect_header(READ);
            proof {
                lemma_part(
                    start,
                    whole,
                    before,
                    stub::expect_header(settings, READ),
                    self.log(),
                    shown(header),
                );
            }
            if let Err(error) = header {
                return Err(error);
            }
            let ghost before = self.log();
            let size_bytes = self.read_exact(2);
            proof {
                lemma_part(
                    start,
                    whole,
                    before,
                    stub::read_exact(settings, 2),
                    self.log(),
                    shown(size_bytes),
                );
            }
            let size_bytes: Vec<u8> = match size_bytes {
                Ok(size_bytes) => size_bytes,
                Err(error) => {
                    return Err(error);
                },
            };
            if read_be16(size_bytes.as_slice()) as usize != size {
                return Err(Error::InvalidReadResponse);
            }
            let ghost before = self.log();
            let data = self.read_exact(size);
            proof {
                lemma_part(
                    start,
                    whole,
                    before,
                    stub::read_exact(settings, size as nat),
                    self.log(),
                    shown(data),
                );
            }
            let data: Vec<u8> = match data {
                Ok(data) => data,
                Err(error) => {
                    return Err(error);
                },
            };
            let ghost before = self.log();
            let check = self.read_notification();
            proof {
                lemma_part(
                    start,
                    whole,
                    before,
                    stub::read_notification(settings),
                    self.log(),
                    shown(check),
                );
            }
            let check: u8 = match check {
                Ok(check) => check,
                Err(error) => {
                    return Err(error);
                },
            };
            let mut covered: Vec<u8> = vec![DLE, READ];
            covered.extend_from_slice(size_bytes.as_slice());
            covered.extend_from_slice(data.as_slice());
            assert(covered@ =~= seq![DLE, READ] + size_bytes@ + data@);
            let accepted: bool = check == xor_bytes(covered.as_slice());
            let answer: [u8; 1] = if accepted { [ACK] } else { [NAK] };
            assert(answer@ =~= if accepted { seq![ACK] } else { seq![NAK] });
            let ghost before = self.log();
            let sent = self.send(answer.as_slice());
            proof {
                lemma_part(
                    start,
                    whole,
                    before,
                    stub::send(settings, answer@),
                    self.log(),
                    shown(sent),
                );
            }
            if let Err(error) = sent {
                return Err(error);
            }
            if accepted {
                return Ok(data);
            }
            attempts = attempts - 1;
        }
        Err(
            Error::RetryLimitExceeded {
                operation: "read response",
                attempts: self.retries as u16 + 1,
            },
        )
    }

    /// Downloads host data to CD-i memory.
    pub fn download(&mut self, address: u32, data: &[u8], chunk_size: usize) -> (result: Result<
        (),
        Error,
    >)
        ensures
            old(self).carried_out(
                final(self),
                stub::download(old(self).settings(), address, data@, chunk_size as nat),
                shown(result),
            ),
    {
        self.download_with_progress(address, data, chunk_size, |done: usize| {})
    }

    /// Downloads host data and reports the cumulative acknowledged byte count
    /// after each successful WRITE request.
    ///
    /// The reports are the ends of the chunks that were acknowledged, each once
    /// and in ascending order: of all chunks on success, and otherwise of those
    /// before the chunk whose WRITE request failed.
    pub fn download_reporting<P: Progress>(
        &mut self,
        address: u32,
        data: &[u8],
        chunk_size: usize,
        progress: &mut P,
    ) -> (result: Result<(), Error>)
        requires
            stub::valid_chunk_size(chunk_size as nat) ==> accepts_ends(
                old(progress),
                data@.len(),
                chunk_size as nat,
            ),
        ensures
            old(self).carried_out(
                final(self),
                stub::download(old(self).settings(), address, data@, chunk_size as nat),
                shown(result),
            ),
            exists|done: nat, middle: Seq<Event>|
                {
                    &&& #[trigger] old(self).downloaded(
                        final(self),
                        address,
                        data@,
                        chunk_size as nat,
                        shown(result),
                        done,
                        middle,
                    )
                    &&& final(progress).reported() == old(progress).reported() + chunk_ends(
                        done,
                        chunk_size as nat,
                    )
                    &&& takes_ends(old(progress), done, chunk_size as nat)
                },
    {
        let ghost start = self.log();
        let ghost settings = self.settings();
        let ghost whole = stub::download(settings, address, data@, chunk_size as nat);
        proof {
            lemma_start(start, whole);
            lemma_no_ends(chunk_size as nat);
            assert(progress.reported() + Seq::<usize>::empty() =~= progress.reported());
        }
        if chunk_size == 0 || chunk_size > 0xffff {
            assert(old(self).downloaded(
                self,
                address,
                data@,
                chunk_size as nat,
                Err(Failure::InvalidChunkSize(chunk_size as nat)),
                0,
                start,
            ));
            return Err(Error::InvalidChunkSize(chunk_size));
        }
        let addressed = self.set_address(address);
        proof {
            lemma_part(
                start,
                whole,
                start,
                stub::set_address(settings, address),
                self.log(),
                shown(addressed),
            );
        }
        if let Err(error) = addressed {
            assert(old(self).downloaded(
                self,
                address,
                data@,
                chunk_size as nat,
                Err(error@),
                0,
                start,
            ));
            return Err(error);
        }
        let mut transferred: usize = 0;
        assert(data@.skip(0) =~= data@);
        while transferred < data.len()
            invariant
                1 <= chunk_size <= 0xffff,
                transferred <= data@.len(),
                transferred == data@.len() || transferred as nat % chunk_size as nat == 0,
                start == old(self).log(),
                settings == old(self).settings(),
                self.settings() == settings,
                self.transport().script() == old(self).transport().script(),
                whole == stub::download(settings, address, data@, chunk_size as nat),
                reaches(
                    start,
                    whole,
                    self.log(),
                    stub::write_chunks(settings, data@.skip(transferred as int), chunk_size as nat),
                ),
                forall|count: usize| #[trigger]
                    progress.accepts(count) == old(progress).accepts(count),
                forall|count: usize| #[trigger]
                    progress.takes(count) == old(progress).takes(count),
                accepts_ends(old(progress), data@.len(), chunk_size as nat),
                takes_ends(old(progress), transferred as nat, chunk_size as nat),
                progress.reported() == old(progress).reported() + chunk_ends(
                    transferred as nat,
                    chunk_size as nat,
                ),
            decreases data@.len() - transferred,
        {
            let left: usize = data.len() - transferred;
            let length: usize = if left < chunk_size { left } else { chunk_size };
            let chunk = slice_subrange(data, transferred, transferred + length);
            let ghost rest = data@.skip(transferred as int);
            assert(chunk@ =~= rest.take(length as int));
            let ghost before = self.log();
            let written = self.write(chunk);
            proof {
                lemma_part(
                    start,
                    whole,
                    before,
                    stub::write(settings, chunk@),
                    self.log(),
                    shown(written),
                );
            }
            if let Err(error) = written {
                assert(old(self).downloaded(
                    self,
                    address,
                    data@,
                    chunk_size as nat,
                    Err(error@),
                    transferred as nat,
                    before,
                ));
                return Err(error);
            }
            assert(rest.skip(length as int) =~= data@.skip(transferred + length));
            let ghost earlier = transferred as nat;
            transferred = transferred + length;
            proof {
                lemma_next_end(earlier, transferred as nat, data@.len(), chunk_size as nat);
            }
            let ghost ends = chunk_ends(earlier, chunk_size as nat);
            progress.report(transferred);
            proof {
                assert(progress.reported() =~= old(progress).reported() + ends.push(transferred));
                lemma_takes_more(old(progress), earlier, transferred, chunk_size as nat);
            }
        }
        assert(old(self).downloaded(
            self,
            address,
            data@,
            chunk_size as nat,
            Ok(()),
            transferred as nat,
            self.log(),
        ));
        Ok(())
    }

    /// Downloads host data and reports the cumulative acknowledged byte count
    /// after each successful WRITE request.
    ///
    /// `progress` is called through a [`Callback`], as
    /// [`download_reporting`](Self::download_reporting) says: with the ends of
    /// the chunks that were acknowledged, each once and in ascending order.
    pub fn download_with_progress<F: FnMut(usize)>(
        &mut self,
        address: u32,
        data: &[u8],
        chunk_size: usize,
        progress: F,
    ) -> (result: Result<(), Error>)
        requires
            stub::valid_chunk_size(chunk_size as nat) ==> callable_with_ends(
                progress,
                data@.len(),
                chunk_size as nat,
            ),
        ensures
            old(self).carried_out(
                final(self),
                stub::download(old(self).settings(), address, data@, chunk_size as nat),
                shown(result),
            ),
            exists|done: nat, middle: Seq<Event>| #[trigger]
                old(self).downloaded(
                    final(self),
                    address,
                    data@,
                    chunk_size as nat,
                    shown(result),
                    done,
                    middle,
                ) && called_with_ends(progress, done, chunk_size as nat),
    {
        let mut callback: Callback<F> = Callback::new(progress);
        self.download_reporting(address, data, chunk_size, &mut callback)
    }

    /// Uploads `size` bytes starting at `address`, reporting the cumulative
    /// byte count after each acknowledged response.
    ///
    /// The reports are the ends of the chunks that arrived, each once and in
    /// ascending order.
    pub fn upload_reporting<P: Progress>(
        &mut self,
        address: u32,
        size: usize,
        chunk_size: usize,
        progress: &mut P,
    ) -> (result: Result<Vec<u8>, Error>)
        requires
            stub::valid_chunk_size(chunk_size as nat) ==> accepts_ends(
                old(progress),
                size as nat,
                chunk_size as nat,
            ),
        ensures
            old(self).carried_out(
                final(self),
                stub::upload(old(self).settings(), address, size as nat, chunk_size as nat),
                shown(result),
            ),
            result matches Ok(data) ==> data@.len() == size,
            exists|data: Seq<u8>, middle: Seq<Event>|
                {
                    &&& #[trigger] old(self).uploaded(
                        final(self),
                        address,
                        size as nat,
                        chunk_size as nat,
                        shown(result),
                        data,
                        middle,
                    )
                    &&& final(progress).reported() == old(progress).reported() + chunk_ends(
                        data.len(),
                        chunk_size as nat,
                    )
                    &&& takes_ends(old(progress), data.len(), chunk_size as nat)
                },
    {
        let ghost start = self.log();
        let ghost settings = self.settings();
        let ghost whole = stub::upload(settings, address, size as nat, chunk_size as nat);
        proof {
            lemma_start(start, whole);
            lemma_no_ends(chunk_size as nat);
            assert(progress.reported() + Seq::<usize>::empty() =~= progress.reported());
        }
        if chunk_size == 0 || chunk_size > 0xffff {
            assert(old(self).uploaded(
                self,
                address,
                size as nat,
                chunk_size as nat,
                Err(Failure::InvalidChunkSize(chunk_size as nat)),
                seq![],
                start,
            ));
            return Err(Error::InvalidChunkSize(chunk_size));
        }
        let addressed = self.set_address(address);
        proof {
            lemma_part(
                start,
                whole,
                start,
                stub::set_address(settings, address),
                self.log(),
                shown(addressed),
            );
        }
        if let Err(error) = addressed {
            assert(old(self).uploaded(
                self,
                address,
                size as nat,
                chunk_size as nat,
                Err(error@),
                seq![],
                start,
            ));
            return Err(error);
        }
        let mut data: Vec<u8> = Vec::new();
        assert(data@ =~= seq![]);
        while data.len() < size
            invariant
                1 <= chunk_size <= 0xffff,
                data@.len() <= size,
                data@.len() == size || data@.len() % chunk_size as nat == 0,
                start == old(self).log(),
                settings == old(self).settings(),
                self.settings() == settings,
                self.transport().script() == old(self).transport().script(),
                whole == stub::upload(settings, address, size as nat, chunk_size as nat),
                reaches(
                    start,
                    whole,
                    self.log(),
                    stub::read_chunks(
                        settings,
                        data@,
                        (size - data@.len()) as nat,
                        chunk_size as nat,
                    ),
                ),
                forall|count: usize| #[trigger]
                    progress.accepts(count) == old(progress).accepts(count),
                forall|count: usize| #[trigger]
                    progress.takes(count) == old(progress).takes(count),
                accepts_ends(old(progress), size as nat, chunk_size as nat),
                takes_ends(old(progress), data@.len(), chunk_size as nat),
                progress.reported() == old(progress).reported() + chunk_ends(
                    data@.len(),
                    chunk_size as nat,
                ),
            decreases size - data@.len(),
        {
            let left: usize = size - data.len();
            let length: usize = if left < chunk_size { left } else { chunk_size };
            let ghost before = self.log();
            let chunk = self.read(length);
            proof {
                lemma_part(
                    start,
                    whole,
                    before,
                    stub::read(settings, length as nat),
                    self.log(),
                    shown(chunk),
                );
            }
            let chunk: Vec<u8> = match chunk {
                Ok(chunk) => chunk,
                Err(error) => {
                    assert(old(self).uploaded(
                        self,
                        address,
                        size as nat,
                        chunk_size as nat,
                        Err(error@),
                        data@,
                        before,
                    ));
                    return Err(error);
                },
            };
            let ghost earlier = data@;
            data.extend_from_slice(chunk.as_slice());
            proof {
                assert(data@ =~= earlier + chunk@);
                lemma_next_end(earlier.len(), data@.len(), size as nat, chunk_size as nat);
            }
            let ghost ends = chunk_ends(earlier.len(), chunk_size as nat);
            let arrived: usize = data.len();
            progress.report(arrived);
            proof {
                assert(progress.reported() =~= old(progress).reported() + ends.push(arrived));
                lemma_takes_more(old(progress), earlier.len(), arrived, chunk_size as nat);
            }
        }
        assert(old(self).uploaded(
            self,
            address,
            size as nat,
            chunk_size as nat,
            Ok(data@),
            data@,
            self.log(),
        ));
        Ok(data)
    }

    /// Uploads `size` bytes starting at `address`, reporting the cumulative
    /// byte count after each acknowledged response.
    ///
    /// `progress` is called through a [`Callback`], as
    /// [`upload_reporting`](Self::upload_reporting) says: with the ends of the
    /// chunks that arrived, each once and in ascending order.
    pub fn upload_with_progress<F: FnMut(usize)>(
        &mut self,
        address: u32,
        size: usize,
        chunk_size: usize,
        progress: F,
    ) -> (result: Result<Vec<u8>, Error>)
        requires
            stub::valid_chunk_size(chunk_size as nat) ==> callable_with_ends(
                progress,
                size as nat,
                chunk_size as nat,
            ),
        ensures
            old(self).carried_out(
                final(self),
                stub::upload(old(self).settings(), address, size as nat, chunk_size as nat),
                shown(result),
            ),
            result matches Ok(data) ==> data@.len() == size,
            exists|data: Seq<u8>, middle: Seq<Event>| #[trigger]
                old(self).uploaded(
                    final(self),
                    address,
                    size as nat,
                    chunk_size as nat,
                    shown(result),
                    data,
                    middle,
                ) && called_with_ends(progress, data.len(), chunk_size as nat),
    {
        let mut callback: Callback<F> = Callback::new(progress);
        self.upload_reporting(address, size, chunk_size, &mut callback)
    }

    /// Shows a diagnostic line about an OS-9 call, if that is wanted.
    pub(crate) fn os9_trace(&mut self, enabled: bool, text: &str)
        ensures
            old(self).carried_out(final(self), service::os9_trace(enabled, text@), ()),
    {
        let ghost start = self.log();
        let ghost whole = service::os9_trace(enabled, text@);
        proof {
            lemma_start(start, whole);
        }
        if enabled {
            self.io.note(text);
            proof {
                let call = Call::Note(text@);
                lemma_turn(start, Event { call, reply: Reply::Finished });
                lemma_part(start, whole, start, turn(call), self.log(), Reply::Finished);
            }
        }
    }
}

} // verus!
