use cdi_serial::progress::Reports;
use cdi_serial::{
    request, Error, IoError, IoErrorKind, Replay, Session, Transport, ACK, ADDRESS, BAUDRATE,
    BUFFER, CAN, DLE, EM, END, EXECUTE, NAK, OS9CALL, READ, REGISTERS, REG_A0, REG_D0, REG_D1,
    SOH, WRITE,
};

fn output(stream: &Replay) -> Vec<u8> {
    stream.writes().concat()
}

fn response(kind: u8, body: &[u8]) -> Vec<u8> {
    let mut frame = vec![DLE, kind];
    frame.extend_from_slice(body);
    frame.push(frame.iter().fold(0, |check, byte| check ^ byte));
    frame
}

/// A transport that accepts and delivers one byte at a time, is interrupted
/// now and then, and can fail.
struct Flaky {
    input: Vec<u8>,
    output: Vec<u8>,
    calls: usize,
    interruptions: usize,
    fail_write: bool,
    refuse_write: bool,
    fail_flush: bool,
}

impl Flaky {
    fn new(input: Vec<u8>) -> Self {
        Self {
            input,
            output: Vec::new(),
            calls: 0,
            interruptions: 5,
            fail_write: false,
            refuse_write: false,
            fail_flush: false,
        }
    }

    fn interrupted(&mut self) -> bool {
        self.calls += 1;
        if self.calls % 3 == 0 && self.interruptions > 0 {
            self.interruptions -= 1;
            true
        } else {
            false
        }
    }
}

impl Transport for Flaky {
    fn write(&mut self, bytes: &[u8]) -> Result<usize, IoError> {
        if self.interrupted() {
            return Err(IoError::new(IoErrorKind::Interrupted, "interrupted"));
        }
        if self.fail_write {
            return Err(IoError::new(IoErrorKind::Other, "broken"));
        }
        if self.refuse_write {
            return Ok(0);
        }
        self.output.push(bytes[0]);
        Ok(1)
    }

    fn read(&mut self, _room: usize) -> Result<Vec<u8>, IoError> {
        if self.interrupted() {
            return Err(IoError::new(IoErrorKind::Interrupted, "interrupted"));
        }
        if self.input.is_empty() {
            return Err(IoError::new(IoErrorKind::TimedOut, "timed out"));
        }
        Ok(vec![self.input.remove(0)])
    }

    fn flush(&mut self) -> Result<(), IoError> {
        if self.fail_flush {
            return Err(IoError::new(IoErrorKind::Other, "flush failed"));
        }
        Ok(())
    }

    fn pause(&mut self, _nanoseconds: u64) {}

    fn note(&mut self, _line: &str) {}
}

#[test]
fn interrupted_and_partial_transfers_are_carried_on() {
    let heard = [vec![ACK], vec![ACK], response(READ, &[0, 3, 7, 8, 9])].concat();
    let mut session = Session::new(Flaky::new(heard));
    session.set_address(0x1234).unwrap();
    assert_eq!(session.read(3).unwrap(), [7, 8, 9]);
    let stream = session.into_inner();
    assert_eq!(
        stream.output,
        [
            request(ADDRESS, &[0, 0, 0x12, 0x34]),
            request(READ, &[0, 3]),
            vec![ACK]
        ]
        .concat()
    );
}

#[test]
fn a_write_that_accepts_nothing_fails() {
    let mut stream = Flaky::new(vec![]);
    stream.refuse_write = true;
    let mut session = Session::new(stream);
    let error = session.end().unwrap_err();
    assert_eq!(
        error.message(),
        "serial I/O error: failed to write complete UART frame"
    );
    assert!(matches!(error, Error::Io(IoError { kind: IoErrorKind::WriteZero, .. })));
}

#[test]
fn failures_of_the_port_are_passed_on() {
    let mut stream = Flaky::new(vec![]);
    stream.fail_write = true;
    let mut session = Session::new(stream);
    assert_eq!(session.end().unwrap_err().message(), "serial I/O error: broken");

    let mut stream = Flaky::new(vec![]);
    stream.fail_flush = true;
    let mut session = Session::new(stream);
    assert_eq!(session.end().unwrap_err().message(), "serial I/O error: flush failed");

    let mut session = Session::new(Flaky::new(vec![]));
    assert_eq!(session.end().unwrap_err().message(), "serial I/O error: timed out");
}

#[test]
fn the_end_of_the_stream_is_an_error() {
    let mut session = Session::new(Replay::new(vec![]));
    let error = session.end().unwrap_err();
    assert!(matches!(
        error,
        Error::Io(IoError { kind: IoErrorKind::UnexpectedEof, .. })
    ));
    assert_eq!(
        error.message(),
        "serial I/O error: UART closed while reading a frame"
    );
}

#[test]
fn io_errors_become_session_errors() {
    let error = Error::from(IoError::new(IoErrorKind::TimedOut, "nothing came"));
    assert_eq!(error.message(), "serial I/O error: nothing came");
}

#[test]
fn rejections_exhaust_the_retries() {
    let mut session = Session::with_retries(Replay::new(vec![NAK; 10]), 2);
    let error = session.execute(0x8000).unwrap_err();
    assert!(matches!(
        error,
        Error::RetryLimitExceeded { operation: "execute request", attempts: 3 }
    ));
    assert_eq!(error.message(), "execute request was rejected 3 times");
    let frame = request(EXECUTE, &0x8000_u32.to_be_bytes());
    assert_eq!(
        output(&session.into_inner()),
        [frame.clone(), frame.clone(), frame].concat()
    );
}

#[test]
fn the_largest_number_of_retries_is_counted() {
    let mut session = Session::with_retries(Replay::new(vec![NAK; 300]), 255);
    let error = session.end().unwrap_err();
    assert_eq!(error.message(), "end request was rejected 256 times");
}

#[test]
fn a_cancelled_request_is_not_repeated() {
    let mut session = Session::new(Replay::new(vec![NAK, CAN]));
    let error = session.end().unwrap_err();
    assert!(matches!(error, Error::Cancelled));
    assert_eq!(error.message(), "CD-i cancelled the operation");
    let frame = request(END, &[]);
    assert_eq!(frame, vec![1, 8, 9]);
    assert_eq!(output(&session.into_inner()), [frame.clone(), frame].concat());
}

#[test]
fn too_much_noise_is_an_error() {
    let mut session = Session::new(Replay::new([vec![b'x'; 4095], vec![ACK]].concat()));
    session.end().unwrap();
    let mut session = Session::new(Replay::new([vec![b'x'; 4096], vec![ACK]].concat()));
    assert_eq!(
        session.end().unwrap_err().message(),
        "serial I/O error: received more than 4096 non-notification bytes while waiting for acknowledgement"
    );
}

#[test]
fn frames_are_sent_in_two_parts() {
    let mut session = Session::new(Replay::new(vec![ACK]));
    session.end().unwrap();
    let stream = session.into_inner();
    assert_eq!(*stream.writes(), vec![vec![1], vec![8, 9]]);
    assert_eq!(*stream.pauses(), vec![1_000_000]);
}

#[test]
fn pacing_waits_for_the_missing_time() {
    let mut session = Session::new(Replay::new(vec![ACK]));
    session.set_tx_pacing(115_200, 9600);
    session.end().unwrap();
    let stream = session.into_inner();
    let extra = 10_000_000_000 / 9600 - 10_000_000_000 / 115_200;
    assert_eq!(extra, 954_861);
    assert_eq!(*stream.pauses(), vec![extra, 1_000_000, extra, extra]);
}

#[test]
fn pacing_is_only_ever_a_slowdown() {
    for (physical, effective) in [(9600, 9600), (9600, 19_200), (9600, 0)] {
        let mut session = Session::new(Replay::new(vec![ACK]));
        session.set_tx_pacing(physical, effective);
        session.end().unwrap();
        assert_eq!(*session.into_inner().pauses(), vec![1_000_000]);
    }
    let mut session = Session::new(Replay::new(vec![ACK]));
    session.set_tx_pacing(115_200, 9600);
    session.clear_tx_pacing();
    session.end().unwrap();
    assert_eq!(*session.into_inner().pauses(), vec![1_000_000]);
}

#[test]
fn traces_show_every_byte() {
    let mut session = Session::new(Replay::new(vec![b'?', ACK]));
    session.set_raw_uart_trace(true);
    session.end().unwrap();
    let stream = session.into_inner();
    assert_eq!(
        *stream.notes(),
        vec!["UART TX: 01", "UART TX: 08 09", "UART RX: 3F", "UART RX: 06"]
    );
    let mut session = Session::new(Replay::new(vec![ACK]));
    session.set_raw_uart_trace(true);
    session.set_raw_uart_trace(false);
    session.end().unwrap();
    assert!(session.into_inner().notes().is_empty());
}

#[test]
fn traces_add_only_notes() {
    let good = response(READ, &[0, 2, 5, 6]);
    let mut bad = good.clone();
    bad[4] ^= 0x40;
    let input = [vec![b'?', ACK], bad, good].concat();
    let mut streams = Vec::new();
    for traced in [false, true] {
        let mut session = Session::new(Replay::new(input.clone()));
        session.set_raw_uart_trace(traced);
        assert_eq!(session.read(2).unwrap(), [5, 6]);
        streams.push(session.into_inner());
    }
    assert_eq!(*streams[0].writes(), *streams[1].writes());
    assert_eq!(*streams[0].pauses(), *streams[1].pauses());
    assert!(streams[0].notes().is_empty());
    assert_eq!(streams[1].notes().len(), 16);
}

#[test]
fn every_operation_is_paced() {
    let input = [
        vec![NAK, ACK],
        response(BUFFER, &[0, 4, 0, 0xd0, 0, 0]),
        vec![ACK, ACK],
        response(READ, &[0, 1, 7]),
    ]
    .concat();
    let mut session = Session::new(Replay::new(input));
    session.set_tx_pacing(115_200, 9600);
    assert_eq!(session.allocate_buffer(4).unwrap(), (4, 0x00d0_0000));
    session.write(&[1, 2, 3, 4]).unwrap();
    assert_eq!(session.read(1).unwrap(), [7]);
    let stream = session.into_inner();
    assert!(stream.writes().iter().all(|bytes| bytes.len() == 1));
    assert_eq!(
        output(&stream),
        [
            request(BUFFER, &[0, 4]),
            request(BUFFER, &[0, 4]),
            vec![ACK],
            request(WRITE, &[0, 4, 1, 2, 3, 4]),
            request(READ, &[0, 1]),
            vec![ACK],
        ]
        .concat()
    );
}

#[test]
fn writes_carry_their_length() {
    let mut session = Session::new(Replay::new(vec![ACK, ACK]));
    session.write(&[]).unwrap();
    session.write(&vec![7; 65535]).unwrap();
    let bytes = output(&session.into_inner());
    assert_eq!(bytes[..5], request(WRITE, &[0, 0])[..]);
    assert_eq!(bytes[5..9], [1, WRITE, 0xff, 0xff]);
    assert_eq!(bytes.len(), 5 + 5 + 65535);

    let mut session = Session::new(Replay::new(vec![ACK]));
    let error = session.write(&vec![7; 65536]).unwrap_err();
    assert!(matches!(error, Error::InvalidChunkSize(65536)));
    assert_eq!(error.message(), "chunk size 65536 must be in 1..=65535");
    assert!(session.into_inner().writes().is_empty());
}

#[test]
fn sizes_have_to_fit() {
    let mut session = Session::new(Replay::new(vec![]));
    assert!(matches!(session.allocate_buffer(0), Err(Error::InvalidChunkSize(0))));
    assert!(matches!(session.allocate_buffer(65536), Err(Error::InvalidChunkSize(65536))));
    assert!(matches!(session.read(0), Err(Error::InvalidChunkSize(0))));
    assert!(matches!(session.read(65536), Err(Error::InvalidChunkSize(65536))));
    assert!(matches!(session.download(0, &[1], 0), Err(Error::InvalidChunkSize(0))));
    assert!(matches!(
        session.upload_with_progress(0, 1, 70000, |_| {}),
        Err(Error::InvalidChunkSize(70000))
    ));
    assert!(session.into_inner().writes().is_empty());
}

#[test]
fn registers_are_written_in_order() {
    let mut session = Session::new(Replay::new(vec![ACK, ACK, ACK]));
    session.set_registers(REG_D1 | REG_A0, &[0x100, 0xdfbe10]).unwrap();
    session.select_registers(REG_D0).unwrap();
    assert_eq!(
        output(&session.into_inner()),
        [
            request(REGISTERS, &[0, 0, 1, 2]),
            request(WRITE, &[0, 8, 0, 0, 1, 0, 0, 0xdf, 0xbe, 0x10]),
            request(REGISTERS, &[0, 0, 0, 1]),
        ]
        .concat()
    );
}

#[test]
fn registers_and_values_have_to_match() {
    let mut session = Session::new(Replay::new(vec![]));
    let error = session.set_registers(REG_D0 | REG_D1, &[1]).unwrap_err();
    assert!(matches!(
        error,
        Error::Io(IoError { kind: IoErrorKind::InvalidInput, .. })
    ));
    assert_eq!(
        error.message(),
        "serial I/O error: register value count does not match register mask"
    );
    assert!(session.into_inner().writes().is_empty());
}

#[test]
fn damaged_responses_are_read_again() {
    let good = response(READ, &[0, 2, 5, 6]);
    let mut bad = good.clone();
    bad[4] ^= 0x40;
    let input = [vec![ACK], bad.clone(), bad.clone(), good].concat();
    let mut session = Session::new(Replay::new(input));
    assert_eq!(session.read(2).unwrap(), [5, 6]);
    assert_eq!(
        output(&session.into_inner()),
        [request(READ, &[0, 2]), vec![NAK, NAK, ACK]].concat()
    );

    let input = [vec![ACK], bad.clone(), bad].concat();
    let mut session = Session::with_retries(Replay::new(input), 1);
    let error = session.read(2).unwrap_err();
    assert_eq!(error.message(), "read response was rejected 2 times");
    assert_eq!(
        output(&session.into_inner()),
        [request(READ, &[0, 2]), vec![NAK, NAK]].concat()
    );
}

#[test]
fn responses_have_to_be_what_was_asked_for() {
    for input in [
        vec![ACK, b'x'],
        vec![ACK, DLE, BUFFER],
        [vec![ACK], response(READ, &[0, 1, 5])].concat(),
    ] {
        let mut session = Session::new(Replay::new(input));
        let error = session.read(2).unwrap_err();
        assert!(matches!(error, Error::InvalidReadResponse));
        assert_eq!(error.message(), "invalid response to read request");
    }
    let mut session = Session::new(Replay::new(vec![ACK, CAN]));
    assert!(matches!(session.read(2), Err(Error::Cancelled)));
}

#[test]
fn response_headers_are_found_behind_noise() {
    let input = [
        vec![ACK],
        b"text ".to_vec(),
        vec![DLE, b'x', DLE],
        vec![DLE, BUFFER],
        response(BUFFER, &[0, 16, 0, 0, 0x80, 0])[2..].to_vec(),
    ]
    .concat();
    let mut session = Session::new(Replay::new(input));
    assert_eq!(session.allocate_buffer(16).unwrap(), (16, 0x8000));

    let input = [
        vec![ACK],
        b"text ".to_vec(),
        vec![DLE, b'x'],
        response(BUFFER, &[0, 16, 0, 0, 0x80, 0]),
    ]
    .concat();
    let mut session = Session::new(Replay::new(input));
    assert_eq!(session.allocate_buffer(16).unwrap(), (16, 0x8000));
}

#[test]
fn response_headers_are_found_behind_stray_markers() {
    for stray in 0..5 {
        let input = [
            vec![ACK],
            vec![DLE; stray],
            response(OS9CALL, &[0, 0, 0, 1]),
        ]
        .concat();
        let mut session = Session::new(Replay::new(input));
        assert_eq!(session.os9_call(0x84, 0).unwrap(), 1);
    }
    let mut session = Session::new(Replay::new([vec![ACK], vec![DLE; 5000]].concat()));
    assert!(matches!(
        session.os9_call(0x84, 0),
        Err(Error::InvalidReadResponse)
    ));
}

#[test]
fn damaged_answers_of_the_stub_are_rejected() {
    let mut bad = response(OS9CALL, &[0, 0, 0, 1]);
    bad[2] ^= 1;
    let mut session = Session::new(Replay::new([vec![ACK], bad].concat()));
    assert!(matches!(session.os9_call(0x84, 0), Err(Error::InvalidReadResponse)));
    assert_eq!(session.into_inner().writes().concat().last(), Some(&NAK));

    let mut bad = response(BUFFER, &[0, 1, 0, 0, 0, 1]);
    bad[2] ^= 1;
    let mut session = Session::new(Replay::new([vec![ACK], bad].concat()));
    assert!(matches!(session.allocate_buffer(1), Err(Error::InvalidReadResponse)));
    assert_eq!(session.into_inner().writes().concat().last(), Some(&NAK));

    let mut bad = response(BAUDRATE, &[0, 0, 0x4b, 0]);
    bad[2] ^= 1;
    let mut session = Session::new(Replay::new([vec![ACK], bad].concat()));
    let error = session.negotiate_baud_rate(19_200).unwrap_err();
    assert_eq!(error.message(), "baud-rate response was rejected 1 times");
    assert_eq!(session.into_inner().writes().concat().last(), Some(&NAK));
}

#[test]
fn the_header_of_a_speed_has_to_come_at_once() {
    let heard = [vec![ACK, b' '], response(BAUDRATE, &[0; 4])].concat();
    let mut session = Session::new(Replay::new(heard));
    assert!(matches!(
        session.negotiate_baud_rate(19_200),
        Err(Error::InvalidReadResponse)
    ));
    let mut session = Session::new(Replay::new(vec![ACK, CAN]));
    assert!(matches!(session.negotiate_baud_rate(1), Err(Error::Cancelled)));
}

#[test]
fn a_program_ends_with_a_notification() {
    let mut session = Session::new(Replay::new(vec![EM, CAN, b'!']));
    session.wait_for_execution_end().unwrap();
    assert!(matches!(session.wait_for_execution_end(), Err(Error::Cancelled)));
    let error = session.wait_for_execution_end().unwrap_err();
    assert!(matches!(error, Error::UnexpectedNotification(b'!')));
    assert_eq!(error.message(), "unexpected protocol notification 0x21");
}

#[test]
fn a_full_stub_prints_a_banner() {
    let mut session = Session::new(Replay::new(b"CD-i Stub\x19".to_vec()));
    assert_eq!(session.wait_for_stub(10).unwrap(), b"CD-i Stub");
    assert!(session.into_inner().writes().is_empty());

    let mut session = Session::new(Replay::new(b"CD-i Stub\x19".to_vec()));
    assert_eq!(
        session.wait_for_stub(9).unwrap_err().message(),
        "serial I/O error: stub activation banner exceeds limit"
    );
    let mut session = Session::new(Replay::new(vec![EM]));
    assert!(session.wait_for_stub(0).is_err());
}

#[test]
fn endpoints_announce_themselves_with_a_marker() {
    for (marker, answer) in [(SOH, vec![ACK]), (DLE, vec![]), (EM, vec![])] {
        let mut session = Session::new(Replay::new([b"hi".to_vec(), vec![marker]].concat()));
        let announced = session.wait_for_announcement(16).unwrap();
        assert_eq!(announced.banner, b"hi");
        assert_eq!(announced.marker, marker);
        assert_eq!(output(&session.into_inner()), answer);
    }
}

#[test]
fn reports_are_the_ends_of_chunks() {
    let mut reports = Reports::new();
    let mut session = Session::new(Replay::new(vec![ACK, ACK, ACK]));
    session
        .download_reporting(0x2000, &[1, 2, 3, 4, 5], 3, &mut reports)
        .unwrap();
    assert_eq!(*reports.counts(), vec![3, 5]);

    let heard = [
        vec![ACK, ACK],
        response(READ, &[0, 3, 1, 2, 3]),
        vec![ACK],
        response(READ, &[0, 2, 4, 5]),
    ]
    .concat();
    let mut reports = Reports::new();
    let mut session = Session::new(Replay::new(heard));
    assert_eq!(
        session
            .upload_reporting(0x2000, 5, 3, &mut reports)
            .unwrap(),
        [1, 2, 3, 4, 5]
    );
    assert_eq!(*reports.counts(), vec![3, 5]);
}

#[test]
fn refused_sizes_are_not_reported() {
    let mut reports = Reports::new();
    let mut session = Session::new(Replay::new(vec![]));
    for size in [0, 65_536] {
        assert!(session
            .download_reporting(0x2000, &[1; 9], size, &mut reports)
            .is_err());
        assert!(session
            .upload_reporting(0x2000, 9, size, &mut reports)
            .is_err());
    }
    assert!(reports.counts().is_empty());
    assert!(session.into_inner().writes().is_empty());
}

#[test]
fn a_failed_download_reports_what_was_acknowledged() {
    let mut session = Session::new(Replay::new(vec![ACK, ACK, CAN]));
    let mut progress = Vec::new();
    let result = session.download_with_progress(0x2000, &[1, 2, 3, 4, 5, 6, 7], 3, |done| {
        progress.push(done)
    });
    assert!(matches!(result, Err(Error::Cancelled)));
    assert_eq!(progress, vec![3]);
}

#[test]
fn an_empty_download_sets_the_address() {
    let mut session = Session::new(Replay::new(vec![ACK]));
    session.download(0x2000, &[], 256).unwrap();
    assert_eq!(
        output(&session.into_inner()),
        request(ADDRESS, &0x2000_u32.to_be_bytes())
    );
}

#[test]
fn the_transport_can_be_reached() {
    let mut session = Session::new(Replay::new(vec![]));
    *session.transport_mut() = Replay::new(vec![ACK]);
    session.end().unwrap();
}
