use cdi_serial::{
    request, Replay, Session, ACK, ADDRESS, BAUDRATE, BUFFER, DLE, NAK, OS9CALL, READ,
    REG_CARRY, REG_D0, SOH, WRITE,
};

fn output(stream: &Replay) -> Vec<u8> {
    stream.writes().concat()
}

#[test]
fn frame_is_big_endian_and_xor_checked() {
    assert_eq!(
        request(ADDRESS, &[0x12, 0x34, 0x56, 0x78]),
        vec![SOH, ADDRESS, 0x12, 0x34, 0x56, 0x78, 0x0B]
    );
}

#[test]
fn nak_retries_the_identical_frame() {
    let stream = Replay::new(vec![NAK, ACK]);
    let mut session = Session::with_retries(stream, 1);
    session.set_address(0x1000).unwrap();
    let stream = session.into_inner();
    let frame = request(ADDRESS, &0x1000_u32.to_be_bytes());
    assert_eq!(output(&stream), [frame.clone(), frame].concat());
}

#[test]
fn tx_pacing_submits_each_uart_byte_separately() {
    let stream = Replay::new(vec![ACK]);
    let mut session = Session::new(stream);
    session.set_tx_pacing(115_200, 38_000);
    session.set_address(0x1000).unwrap();
    let stream = session.into_inner();
    assert!(stream.writes().iter().all(|write| write.len() == 1));
    assert_eq!(
        stream.writes().len(),
        request(ADDRESS, &0x1000_u32.to_be_bytes()).len()
    );
}

#[test]
fn echo_before_acknowledgement_is_ignored() {
    let stream = Replay::new(vec![SOH, ADDRESS, 0x00, ACK]);
    let mut session = Session::new(stream);
    session.set_address(0x8000).unwrap();
}

#[test]
fn rom_download_subset_announces_with_dle() {
    let stream = Replay::new(vec![DLE]);
    let mut session = Session::new(stream);
    assert!(session.wait_for_stub(16).unwrap().is_empty());
}

#[test]
fn rom_download_subset_soh_is_acknowledged() {
    let stream = Replay::new(vec![SOH]);
    let mut session = Session::new(stream);
    session.wait_for_stub(16).unwrap();
    assert_eq!(output(&session.into_inner()), vec![ACK]);
}

#[test]
fn download_splits_writes_and_advances_on_target() {
    let stream = Replay::new(vec![ACK, ACK, ACK]);
    let mut session = Session::new(stream);
    session.download(0x2000, &[1, 2, 3, 4, 5], 3).unwrap();
    let bytes = session.into_inner();
    let expected = [
        request(ADDRESS, &0x2000_u32.to_be_bytes()),
        request(WRITE, &[0, 3, 1, 2, 3]),
        request(WRITE, &[0, 2, 4, 5]),
    ]
    .concat();
    assert_eq!(output(&bytes), expected);
}

#[test]
fn download_reports_only_acknowledged_chunks() {
    let stream = Replay::new(vec![ACK, ACK, ACK]);
    let mut session = Session::new(stream);
    let mut progress = Vec::new();
    session
        .download_with_progress(0x2000, &[1, 2, 3, 4, 5], 3, |bytes| progress.push(bytes))
        .unwrap();
    assert_eq!(progress, vec![3, 5]);
}

#[test]
fn read_validates_response_and_acknowledges_it() {
    let data = [0x12, 0x34, 0x56];
    let mut response = vec![ACK, DLE, READ, 0, data.len() as u8];
    response.extend(data);
    response.push(response.iter().skip(1).fold(0, |check, byte| check ^ byte));
    let stream = Replay::new(response);
    let mut session = Session::new(stream);
    assert_eq!(session.read(3).unwrap(), data);
    let stream = session.into_inner();
    assert_eq!(output(&stream), [request(READ, &[0, 3]), vec![ACK]].concat());
}

#[test]
fn upload_sets_address_and_reports_progress() {
    let mut first_response = vec![DLE, READ, 0, 3, 1, 2, 3];
    first_response.push(first_response.iter().fold(0, |check, byte| check ^ byte));
    let mut second_response = vec![DLE, READ, 0, 2, 4, 5];
    second_response.push(second_response.iter().fold(0, |check, byte| check ^ byte));
    let stream = Replay::new([vec![ACK, ACK], first_response, vec![ACK], second_response].concat());
    let mut session = Session::new(stream);
    let mut progress = Vec::new();
    assert_eq!(
        session
            .upload_with_progress(0x2000, 5, 3, |bytes| progress.push(bytes))
            .unwrap(),
        [1, 2, 3, 4, 5]
    );
    assert_eq!(progress, vec![3, 5]);
}

#[test]
fn baud_rate_is_negotiated_before_local_port_switch() {
    let rate = 38_400_u32.to_be_bytes();
    let mut response = vec![ACK, DLE, BAUDRATE];
    response.extend(rate);
    response.push(response.iter().skip(1).fold(0, |check, byte| check ^ byte));
    let stream = Replay::new(response);
    let mut session = Session::new(stream);
    assert_eq!(session.negotiate_baud_rate(38_400).unwrap(), 38_400);
    assert_eq!(
        output(&session.into_inner()),
        [request(BAUDRATE, &rate), vec![ACK]].concat()
    );
}

#[test]
fn full_stub_buffer_response_is_validated_and_acknowledged() {
    let mut response = vec![ACK, DLE, BUFFER, 0, 0x40, 0, 0xdf, 0xbe, 0x10];
    response.push(response.iter().skip(1).fold(0, |check, byte| check ^ byte));
    let stream = Replay::new(response);
    let mut session = Session::new(stream);
    assert_eq!(session.allocate_buffer(64).unwrap(), (64, 0x00df_be10));
    assert_eq!(
        output(&session.into_inner()),
        [request(BUFFER, &[0, 0x40]), vec![ACK]].concat()
    );
}

#[test]
fn full_stub_os9_call_returns_changed_register_mask() {
    let mask = (REG_D0 | REG_CARRY).to_be_bytes();
    let mut response = vec![ACK, DLE, OS9CALL];
    response.extend(mask);
    response.push(response.iter().skip(1).fold(0, |check, byte| check ^ byte));
    let stream = Replay::new(response);
    let mut session = Session::new(stream);
    assert_eq!(session.os9_call(0x84, 0).unwrap(), REG_D0 | REG_CARRY);
    assert_eq!(
        output(&session.into_inner()),
        [request(OS9CALL, &[0, 0x84, 0, 0, 0, 0]), vec![ACK]].concat()
    );
}
