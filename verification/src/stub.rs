//! The dialogues of the Stub protocol, from single bytes to whole transfers.
//!
//! Each function here is the dialogue of the session operation of the same
//! name: what the session says, in which order, and what it concludes from
//! every answer it can get. The requests that other operations are made of are
//! opaque; a proof that needs to look into one of them reveals it.

use vstd::prelude::*;

use crate::dialogue::{attempt, chain, turn, Dialogue};
use crate::error::Failure;
use crate::frame::{
    be16, be32, ones, request_frame, value16, value32, xor_of, ACK, ADDRESS, BAUDRATE, BUFFER, CAN,
    DLE, EM, END, EXECUTE, NAK, OS9CALL, READ, REGISTERS, SOH, WRITE,
};
use crate::line::{Call, Reply};
use crate::text::hex2;
use crate::transport::{IoErrorKind, IoFault};

verus! {

/// How a session is set up.
pub struct Settings {
    /// How often a rejected request is sent again.
    pub retries: nat,
    /// Every byte that is transferred is shown to the user.
    pub raw_uart_trace: bool,
    /// The physical and the effective baud rate, if transmission is slowed.
    pub tx_pacing: Option<(nat, nat)>,
}

/// The number of bytes that may pass before an awaited marker.
pub const NOISE_LIMIT: usize = 4096;

/// The failure of a call that the transport refused.
pub open spec fn refusal(reply: Reply) -> Failure {
    match reply {
        Reply::Failed(fault) => Failure::Io(fault),
        _ => arbitrary(),
    }
}

/// A failure that the library itself reports as an I/O error.
pub open spec fn io_failure(kind: IoErrorKind, message: Seq<char>) -> Failure {
    Failure::Io(IoFault { kind, message })
}

/// Bytes as two hexadecimal digits each, with a space in front of each.
pub open spec fn hex_list(bytes: Seq<u8>) -> Seq<char>
    decreases bytes.len(),
{
    if bytes.len() == 0 {
        seq![]
    } else {
        hex_list(bytes.drop_last()).push(' ') + hex2(bytes.last())
    }
}

/// The diagnostic line for bytes that were transferred.
pub open spec fn uart_line(direction: Seq<char>, bytes: Seq<u8>) -> Seq<char> {
    "UART "@ + direction + ":"@ + hex_list(bytes)
}

/// Shows transferred bytes to the user, if the session is set up for it.
pub open spec fn trace_uart(
    settings: Settings,
    direction: Seq<char>,
    bytes: Seq<u8>,
) -> Dialogue<()> {
    if settings.raw_uart_trace && bytes.len() > 0 {
        chain(turn(Call::Note(uart_line(direction, bytes))), |reply: Reply| Dialogue::Over(()))
    } else {
        Dialogue::Over(())
    }
}

/// The nanoseconds that a byte takes at a baud rate: ten bits with framing.
pub open spec fn byte_time(baud: nat) -> nat {
    10_000_000_000nat / baud
}

/// The pacing that makes a link behave like a slower one. There is none if the other
/// speed is not slower, or is none at all.
pub open spec fn slowing(physical: u32, effective: u32) -> Option<(nat, nat)> {
    if physical > effective && effective > 0 {
        Some((physical as nat, effective as nat))
    } else {
        None
    }
}

/// The nanoseconds to wait after each transmission.
pub open spec fn extra_time(tx_pacing: Option<(nat, nat)>) -> nat {
    match tx_pacing {
        Some((physical, effective)) => if byte_time(effective) > byte_time(physical) {
            (byte_time(effective) - byte_time(physical)) as nat
        } else {
            0
        },
        None => 0,
    }
}

/// Waits after a transmission, if there is anything to wait for.
pub open spec fn pace_tx_byte(settings: Settings) -> Dialogue<()> {
    if extra_time(settings.tx_pacing) > 0 {
        chain(
            turn(Call::Pause(extra_time(settings.tx_pacing))),
            |reply: Reply| Dialogue::Over(()),
        )
    } else {
        Dialogue::Over(())
    }
}

/// The bytes that are offered to the transport at once: all of them, or one at
/// a time while transmission is slowed.
pub open spec fn offered(settings: Settings, bytes: Seq<u8>) -> Seq<u8> {
    if settings.tx_pacing is Some {
        bytes.take(1)
    } else {
        bytes
    }
}

/// Offers bytes until all of them are accepted.
pub open spec fn write_all(settings: Settings, bytes: Seq<u8>) -> Dialogue<Result<(), Failure>>
    decreases bytes.len(),
{
    if bytes.len() == 0 {
        Dialogue::Over(Ok(()))
    } else {
        chain(
            turn(Call::Write(offered(settings, bytes))),
            |reply: Reply|
                match reply {
                    Reply::Accepted(count) => if 0 < count <= bytes.len() {
                        chain(
                            trace_uart(settings, "TX"@, bytes.take(count as int)),
                            |_traced: ()|
                                chain(
                                    pace_tx_byte(settings),
                                    |_paced: ()| write_all(settings, bytes.skip(count as int)),
                                ),
                        )
                    } else {
                        Dialogue::Over(
                            Err(
                                io_failure(
                                    IoErrorKind::WriteZero,
                                    "failed to write complete UART frame"@,
                                ),
                            ),
                        )
                    },
                    _ => Dialogue::Over(Err(refusal(reply))),
                },
        )
    }
}

/// Reads until `left` more bytes have arrived, after those in `bytes`.
pub open spec fn read_more(settings: Settings, bytes: Seq<u8>, left: nat) -> Dialogue<
    Result<Seq<u8>, Failure>,
>
    decreases left,
{
    if left == 0 {
        Dialogue::Over(Ok(bytes))
    } else {
        chain(
            turn(Call::Read(left)),
            |reply: Reply|
                match reply {
                    Reply::Delivered(more) => if 0 < more.len() <= left {
                        chain(
                            trace_uart(settings, "RX"@, more),
                            |_traced: ()|
                                read_more(settings, bytes + more, (left - more.len()) as nat),
                        )
                    } else {
                        Dialogue::Over(
                            Err(
                                io_failure(
                                    IoErrorKind::UnexpectedEof,
                                    "UART closed while reading a frame"@,
                                ),
                            ),
                        )
                    },
                    _ => Dialogue::Over(Err(refusal(reply))),
                },
        )
    }
}

/// Reads until `count` bytes have arrived.
pub open spec fn read_exact(settings: Settings, count: nat) -> Dialogue<
    Result<Seq<u8>, Failure>,
> {
    read_more(settings, seq![], count)
}

/// Pushes out what was written.
pub open spec fn flush() -> Dialogue<Result<(), Failure>> {
    chain(
        turn(Call::Flush),
        |reply: Reply|
            match reply {
                Reply::Finished => Dialogue::Over(Ok(())),
                _ => Dialogue::Over(Err(refusal(reply))),
            },
    )
}

/// Writes bytes and pushes them out.
pub open spec fn send(settings: Settings, bytes: Seq<u8>) -> Dialogue<Result<(), Failure>> {
    attempt(write_all(settings, bytes), |_written: ()| flush())
}

/// Sends a frame: its first byte, a millisecond of silence, the rest.
pub open spec fn transmit(settings: Settings, frame: Seq<u8>) -> Dialogue<Result<(), Failure>> {
    attempt(
        send(settings, frame.take(1)),
        |_sent: ()|
            chain(
                turn(Call::Pause(1_000_000)),
                |reply: Reply| send(settings, frame.skip(1)),
            ),
    )
}

/// Reads a single byte.
pub open spec fn read_notification(settings: Settings) -> Dialogue<Result<u8, Failure>> {
    attempt(read_exact(settings, 1), |bytes: Seq<u8>| Dialogue::Over(Ok(bytes[0])))
}

/// The byte is an answer to a request.
pub open spec fn is_acknowledgement(byte: u8) -> bool {
    byte == ACK || byte == NAK || byte == CAN
}

/// Skips over echoed bytes and text until an answer arrives, for at most
/// `limit` bytes.
pub open spec fn read_acknowledgement(settings: Settings, limit: nat) -> Dialogue<
    Result<u8, Failure>,
>
    decreases limit,
{
    if limit == 0 {
        Dialogue::Over(
            Err(
                io_failure(
                    IoErrorKind::InvalidData,
                    "received more than 4096 non-notification bytes while waiting for acknowledgement"@,
                ),
            ),
        )
    } else {
        attempt(
            read_notification(settings),
            |byte: u8|
                if is_acknowledgement(byte) {
                    Dialogue::Over(Ok(byte))
                } else {
                    read_acknowledgement(settings, (limit - 1) as nat)
                },
        )
    }
}

/// All attempts were rejected.
pub open spec fn exhausted(settings: Settings, operation: Seq<char>) -> Failure {
    Failure::RetryLimitExceeded { operation, attempts: settings.retries + 1 }
}

/// Sends a frame until it is acknowledged, at most `attempts` times.
pub open spec fn send_attempts(
    settings: Settings,
    frame: Seq<u8>,
    operation: Seq<char>,
    attempts: nat,
) -> Dialogue<Result<(), Failure>>
    decreases attempts,
{
    if attempts == 0 {
        Dialogue::Over(Err(exhausted(settings, operation)))
    } else {
        attempt(
            transmit(settings, frame),
            |_sent: ()|
                attempt(
                    read_acknowledgement(settings, NOISE_LIMIT as nat),
                    |byte: u8|
                        if byte == ACK {
                            Dialogue::Over(Ok(()))
                        } else if byte == NAK {
                            send_attempts(settings, frame, operation, (attempts - 1) as nat)
                        } else {
                            Dialogue::Over(Err(Failure::Cancelled))
                        },
                ),
        )
    }
}

/// Sends a frame until it is acknowledged, once more than there are retries.
pub open spec fn send_acknowledged(
    settings: Settings,
    frame: Seq<u8>,
    operation: Seq<char>,
) -> Dialogue<Result<(), Failure>> {
    send_attempts(settings, frame, operation, settings.retries + 1)
}

/// Skips over echoed bytes and text until a response of the given kind starts.
/// `limit` is the number of bytes that may pass; the DLE of a header does not
/// count.
pub open spec fn read_response_header(settings: Settings, kind: u8, limit: nat) -> Dialogue<
    Result<(), Failure>,
>
    decreases limit, 1int,
{
    if limit == 0 {
        Dialogue::Over(Err(Failure::InvalidReadResponse))
    } else {
        attempt(
            read_notification(settings),
            |byte: u8|
                if byte == CAN {
                    Dialogue::Over(Err(Failure::Cancelled))
                } else if byte == DLE {
                    read_response_kind(settings, kind, limit)
                } else {
                    read_response_header(settings, kind, (limit - 1) as nat)
                },
        )
    }
}

/// Goes on after a DLE: with the kind, the header is complete. Another DLE can
/// be that of the header itself; with anything else the search begins again.
pub open spec fn read_response_kind(settings: Settings, kind: u8, limit: nat) -> Dialogue<
    Result<(), Failure>,
>
    decreases limit, 0int,
{
    if limit == 0 {
        Dialogue::Over(Err(Failure::InvalidReadResponse))
    } else {
        attempt(
            read_notification(settings),
            |byte: u8|
                if byte == kind {
                    Dialogue::Over(Ok(()))
                } else if byte == DLE {
                    read_response_kind(settings, kind, (limit - 1) as nat)
                } else {
                    read_response_header(settings, kind, (limit - 1) as nat)
                },
        )
    }
}

/// Reads the body of a response whose header is already read, and its check
/// byte. A good response is answered with ACK, a bad one with NAK; the latter
/// fails as `rejection` says.
pub open spec fn read_response_body(
    settings: Settings,
    kind: u8,
    count: nat,
    rejection: Failure,
) -> Dialogue<Result<Seq<u8>, Failure>> {
    attempt(
        read_exact(settings, count),
        |body: Seq<u8>|
            attempt(
                read_notification(settings),
                |check: u8|
                    if check == xor_of(seq![DLE, kind] + body) {
                        attempt(
                            send(settings, seq![ACK]),
                            |_sent: ()| Dialogue::Over(Ok(body)),
                        )
                    } else {
                        attempt(
                            send(settings, seq![NAK]),
                            |_sent: ()| Dialogue::Over(Err(rejection)),
                        )
                    },
            ),
    )
}

/// Reads the header of a response that has to start right away.
pub open spec fn expect_header(settings: Settings, kind: u8) -> Dialogue<Result<(), Failure>> {
    attempt(
        read_notification(settings),
        |marker: u8|
            if marker == CAN {
                Dialogue::Over(Err(Failure::Cancelled))
            } else if marker != DLE {
                Dialogue::Over(Err(Failure::InvalidReadResponse))
            } else {
                attempt(
                    read_notification(settings),
                    |second: u8|
                        if second == kind {
                            Dialogue::Over(Ok(()))
                        } else {
                            Dialogue::Over(Err(Failure::InvalidReadResponse))
                        },
                )
            },
    )
}

/// The number can be the size of a chunk: it is not zero and fits in 16 bits.
pub open spec fn valid_chunk_size(size: nat) -> bool {
    1 <= size <= 0xffff
}

/// Makes `address` the current address.
#[verifier::opaque]
pub open spec fn set_address(settings: Settings, address: u32) -> Dialogue<Result<(), Failure>> {
    send_acknowledged(settings, request_frame(ADDRESS, be32(address)), "address request"@)
}

/// Writes data to the current data area, in one request.
#[verifier::opaque]
pub open spec fn write(settings: Settings, data: Seq<u8>) -> Dialogue<Result<(), Failure>> {
    if data.len() > 0xffff {
        Dialogue::Over(Err(Failure::InvalidChunkSize(data.len())))
    } else {
        send_acknowledged(
            settings,
            request_frame(WRITE, be16(data.len() as u16) + data),
            "write request"@,
        )
    }
}

/// Asks for a temporary buffer. The outcome is its actual size and its address.
#[verifier::opaque]
pub open spec fn allocate_buffer(settings: Settings, size: nat) -> Dialogue<
    Result<(usize, u32), Failure>,
> {
    if !valid_chunk_size(size) {
        Dialogue::Over(Err(Failure::InvalidChunkSize(size)))
    } else {
        attempt(
            send_acknowledged(
                settings,
                request_frame(BUFFER, be16(size as u16)),
                "buffer request"@,
            ),
            |_sent: ()|
                attempt(
                    read_response_header(settings, BUFFER, NOISE_LIMIT as nat),
                    |_header: ()|
                        attempt(
                            read_response_body(
                                settings,
                                BUFFER,
                                6,
                                Failure::InvalidReadResponse,
                            ),
                            |body: Seq<u8>|
                                Dialogue::Over(
                                    Ok((value16(body) as usize, value32(body.skip(2)))),
                                ),
                        ),
                ),
        )
    }
}

/// Numbers in big-endian order, one after the other.
pub open spec fn be32_list(values: Seq<u32>) -> Seq<u8>
    decreases values.len(),
{
    if values.len() == 0 {
        seq![]
    } else {
        be32_list(values.drop_last()) + be32(values.last())
    }
}

/// Makes saved registers the current data area.
#[verifier::opaque]
pub open spec fn select_registers(settings: Settings, mask: u32) -> Dialogue<
    Result<(), Failure>,
> {
    send_acknowledged(settings, request_frame(REGISTERS, be32(mask)), "register request"@)
}

/// Selects saved registers and writes their values.
#[verifier::opaque]
pub open spec fn set_registers(settings: Settings, mask: u32, values: Seq<u32>) -> Dialogue<
    Result<(), Failure>,
> {
    if values.len() != ones(mask) {
        Dialogue::Over(
            Err(
                io_failure(
                    IoErrorKind::InvalidInput,
                    "register value count does not match register mask"@,
                ),
            ),
        )
    } else {
        attempt(
            select_registers(settings, mask),
            |_selected: ()| write(settings, be32_list(values)),
        )
    }
}

/// Makes an OS-9 call. The outcome is the mask of changed registers.
#[verifier::opaque]
pub open spec fn os9_call(settings: Settings, call: u16, result_mask: u32) -> Dialogue<
    Result<u32, Failure>,
> {
    attempt(
        send_acknowledged(
            settings,
            request_frame(OS9CALL, be16(call) + be32(result_mask)),
            "OS-9 call request"@,
        ),
        |_sent: ()|
            attempt(
                read_response_header(settings, OS9CALL, NOISE_LIMIT as nat),
                |_header: ()|
                    attempt(
                        read_response_body(settings, OS9CALL, 4, Failure::InvalidReadResponse),
                        |body: Seq<u8>| Dialogue::Over(Ok(value32(body))),
                    ),
            ),
    )
}

/// The length of the next chunk when `left` bytes remain.
pub open spec fn chunk_length(left: nat, chunk_size: nat) -> nat {
    if left < chunk_size {
        left
    } else {
        chunk_size
    }
}

/// Writes data in chunks of `chunk_size` bytes; the last one may be shorter.
pub open spec fn write_chunks(settings: Settings, data: Seq<u8>, chunk_size: nat) -> Dialogue<
    Result<(), Failure>,
>
    decreases data.len(),
{
    if data.len() == 0 || chunk_size == 0 {
        Dialogue::Over(Ok(()))
    } else {
        attempt(
            write(settings, data.take(chunk_length(data.len(), chunk_size) as int)),
            |_written: ()|
                write_chunks(
                    settings,
                    data.skip(chunk_length(data.len(), chunk_size) as int),
                    chunk_size,
                ),
        )
    }
}

/// Writes data to memory from `address` on, in chunks.
pub open spec fn download(
    settings: Settings,
    address: u32,
    data: Seq<u8>,
    chunk_size: nat,
) -> Dialogue<Result<(), Failure>> {
    if !valid_chunk_size(chunk_size) {
        Dialogue::Over(Err(Failure::InvalidChunkSize(chunk_size)))
    } else {
        attempt(
            set_address(settings, address),
            |_set: ()| write_chunks(settings, data, chunk_size),
        )
    }
}

/// Reads a response of `size` bytes; a damaged one is asked for again, for at
/// most `attempts` responses in all.
pub open spec fn read_attempts(settings: Settings, size: nat, attempts: nat) -> Dialogue<
    Result<Seq<u8>, Failure>,
>
    decreases attempts,
{
    if attempts == 0 {
        Dialogue::Over(Err(exhausted(settings, "read response"@)))
    } else {
        attempt(
            expect_header(settings, READ),
            |_header: ()|
                attempt(
                    read_exact(settings, 2),
                    |size_bytes: Seq<u8>|
                        if value16(size_bytes) != size {
                            Dialogue::Over(Err(Failure::InvalidReadResponse))
                        } else {
                            attempt(
                                read_exact(settings, size),
                                |data: Seq<u8>|
                                    attempt(
                                        read_notification(settings),
                                        |check: u8|
                                            if check == xor_of(
                                                seq![DLE, READ] + size_bytes + data,
                                            ) {
                                                attempt(
                                                    send(settings, seq![ACK]),
                                                    |_sent: ()| Dialogue::Over(Ok(data)),
                                                )
                                            } else {
                                                attempt(
                                                    send(settings, seq![NAK]),
                                                    |_sent: ()|
                                                        read_attempts(
                                                            settings,
                                                            size,
                                                            (attempts - 1) as nat,
                                                        ),
                                                )
                                            },
                                    ),
                            )
                        },
                ),
        )
    }
}

/// Reads `size` bytes from the current data area, in one request.
#[verifier::opaque]
pub open spec fn read(settings: Settings, size: nat) -> Dialogue<Result<Seq<u8>, Failure>> {
    if !valid_chunk_size(size) {
        Dialogue::Over(Err(Failure::InvalidChunkSize(size)))
    } else {
        attempt(
            send_acknowledged(
                settings,
                request_frame(READ, be16(size as u16)),
                "read request"@,
            ),
            |_sent: ()| read_attempts(settings, size, settings.retries + 1),
        )
    }
}

/// Reads `left` more bytes in chunks and appends them to `data`.
pub open spec fn read_chunks(
    settings: Settings,
    data: Seq<u8>,
    left: nat,
    chunk_size: nat,
) -> Dialogue<Result<Seq<u8>, Failure>>
    decreases left,
{
    if left == 0 || chunk_size == 0 {
        Dialogue::Over(Ok(data))
    } else {
        attempt(
            read(settings, chunk_length(left, chunk_size)),
            |chunk: Seq<u8>|
                read_chunks(
                    settings,
                    data + chunk,
                    (left - chunk_length(left, chunk_size)) as nat,
                    chunk_size,
                ),
        )
    }
}

/// Reads `size` bytes of memory from `address` on, in chunks.
pub open spec fn upload(settings: Settings, address: u32, size: nat, chunk_size: nat) -> Dialogue<
    Result<Seq<u8>, Failure>,
> {
    if !valid_chunk_size(chunk_size) {
        Dialogue::Over(Err(Failure::InvalidChunkSize(chunk_size)))
    } else {
        attempt(
            set_address(settings, address),
            |_set: ()| read_chunks(settings, seq![], size, chunk_size),
        )
    }
}

/// Asks for a baud rate. The outcome is the one that the player chose.
pub open spec fn negotiate_baud_rate(settings: Settings, desired: u32) -> Dialogue<
    Result<u32, Failure>,
> {
    attempt(
        send_acknowledged(
            settings,
            request_frame(BAUDRATE, be32(desired)),
            "baud-rate request"@,
        ),
        |_sent: ()|
            attempt(
                expect_header(settings, BAUDRATE),
                |_header: ()|
                    attempt(
                        read_response_body(
                            settings,
                            BAUDRATE,
                            4,
                            Failure::RetryLimitExceeded {
                                operation: "baud-rate response"@,
                                attempts: 1,
                            },
                        ),
                        |body: Seq<u8>| Dialogue::Over(Ok(value32(body))),
                    ),
            ),
    )
}

/// Starts code at `address`.
pub open spec fn execute(settings: Settings, address: u32) -> Dialogue<Result<(), Failure>> {
    send_acknowledged(settings, request_frame(EXECUTE, be32(address)), "execute request"@)
}

/// Waits for the notification that started code has returned.
pub open spec fn wait_for_execution_end(settings: Settings) -> Dialogue<Result<(), Failure>> {
    attempt(
        read_notification(settings),
        |byte: u8|
            if byte == EM {
                Dialogue::Over(Ok(()))
            } else if byte == CAN {
                Dialogue::Over(Err(Failure::Cancelled))
            } else {
                Dialogue::Over(Err(Failure::UnexpectedNotification(byte)))
            },
    )
}

/// Ends the stub.
pub open spec fn end(settings: Settings) -> Dialogue<Result<(), Failure>> {
    send_acknowledged(settings, request_frame(END, seq![]), "end request"@)
}

/// Collects text until an endpoint announces itself. `banner` has arrived
/// already and `limit` more bytes may come. The outcome is the text, and the
/// byte by which the endpoint announced itself.
pub open spec fn await_announcement(settings: Settings, banner: Seq<u8>, limit: nat) -> Dialogue<
    Result<(Seq<u8>, u8), Failure>,
>
    decreases limit,
{
    if limit == 0 {
        Dialogue::Over(
            Err(io_failure(IoErrorKind::InvalidData, "stub activation banner exceeds limit"@)),
        )
    } else {
        attempt(
            read_notification(settings),
            |byte: u8|
                if byte == SOH {
                    attempt(
                        send(settings, seq![ACK]),
                        |_sent: ()| Dialogue::Over(Ok((banner, byte))),
                    )
                } else if byte == EM || byte == DLE {
                    Dialogue::Over(Ok((banner, byte)))
                } else {
                    await_announcement(settings, banner.push(byte), (limit - 1) as nat)
                },
        )
    }
}

/// Collects text until an endpoint announces itself, for at most `max_bytes`
/// bytes.
pub open spec fn wait_for_announcement(settings: Settings, max_bytes: nat) -> Dialogue<
    Result<(Seq<u8>, u8), Failure>,
> {
    await_announcement(settings, seq![], max_bytes)
}

/// The same, but the outcome is the text alone.
pub open spec fn wait_for_stub(settings: Settings, max_bytes: nat) -> Dialogue<
    Result<Seq<u8>, Failure>,
> {
    attempt(
        wait_for_announcement(settings, max_bytes),
        |announcement: (Seq<u8>, u8)| Dialogue::Over(Ok(announcement.0)),
    )
}

} // verus!
